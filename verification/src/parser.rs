//! The precedence-climbing parser: pulls tokens from the tokenizer through
//! a two-token window (`cur_token`, `peek_token`), builds the syntax tree,
//! and accumulates diagnostics instead of aborting on malformed input.
//!
//! The `spec_parse_*` functions are the mathematical description of parsing
//! over a token stream; every `Parser` method is proved to compute exactly
//! what they say. Positions index the stream; each routine returns the index
//! of the last token of its construct (where the cursor rests), reading an
//! EOF token beyond the stream's end.

use crate::ast::BlockModel;
use crate::ast::BlockStatement;
use crate::ast::BooleanLiteral;
use crate::ast::IntegerLiteral;
use crate::ast::PrefixExpression;
use crate::ast::ExprModel;
use crate::ast::Expression;
use crate::ast::ExpressionStatement;
use crate::ast::IdentModel;
use crate::ast::Identifier;
use crate::ast::LetStatement;
use crate::ast::Program;
use crate::ast::ProgramModel;
use crate::ast::ReturnStatement;
use crate::ast::Statement;
use crate::ast::StmtModel;
use crate::lexer::lex;
use crate::lexer::lemma_lex_step;
use crate::lexer::lemma_lex_wf;
use crate::lexer::next_tok;
use crate::lexer::wf_stream;
use crate::lexer::Lexer;
use crate::token::eof_token;
use crate::token::token_type_name;
use crate::token::token_type_text;
use crate::token::Token;
use crate::token::TokenModel;
use crate::token::TokenType;
use vstd::prelude::*;
use vstd::string::*;

verus! {

/// The precedence ladder, lowest binding power first. Each infix-capable
/// token kind maps to exactly one level; a kind absent from the table has
/// the lowest level, which stops infix parsing.
#[derive(PartialEq, Eq, Structural, Clone, Copy, Debug)]
pub enum Precedence {
    Lowest,
    Equals,
    LessGreater,
    Sum,
    Product,
    Prefix,
    Call,
}

/// Numeric binding power of a precedence level.
pub open spec fn prec_level(p: Precedence) -> int {
    match p {
        Precedence::Lowest => 0,
        Precedence::Equals => 1,
        Precedence::LessGreater => 2,
        Precedence::Sum => 3,
        Precedence::Product => 4,
        Precedence::Prefix => 5,
        Precedence::Call => 6,
    }
}

/// The fixed precedence table: the binding power of a token kind in infix
/// position.
pub open spec fn prec_of_kind(k: TokenType) -> int {
    match k {
        TokenType::EQ => 1,
        TokenType::NotEq => 1,
        TokenType::LT => 2,
        TokenType::GT => 2,
        TokenType::PLUS => 3,
        TokenType::MINUS => 3,
        TokenType::SLASH => 4,
        TokenType::ASTERISK => 4,
        TokenType::LPAREN => 6,
        _ => 0,
    }
}

/// The token kinds that parse as binary operators.
pub open spec fn is_infix_op(k: TokenType) -> bool {
    ||| k == TokenType::PLUS
    ||| k == TokenType::MINUS
    ||| k == TokenType::SLASH
    ||| k == TokenType::ASTERISK
    ||| k == TokenType::EQ
    ||| k == TokenType::NotEq
    ||| k == TokenType::LT
    ||| k == TokenType::GT
}

/// The token at index `i` of the stream; one past the end, the EOF token,
/// which the tokenizer repeats once the input is exhausted.
pub open spec fn tok_at(toks: Seq<TokenModel>, i: int) -> TokenModel {
    if 0 <= i < toks.len() {
        toks[i]
    } else {
        eof_token()
    }
}

/// The stream from index `j` on; past the last token, the repeated EOF.
pub open spec fn stream_suffix(toks: Seq<TokenModel>, j: int) -> Seq<TokenModel> {
    if 0 <= j <= toks.len() - 1 {
        toks.skip(j)
    } else {
        seq![eof_token()]
    }
}

/// The identifier node a token produces: its text is both the literal and
/// the name.
pub open spec fn ident_of(t: TokenModel) -> IdentModel {
    IdentModel { token: t, value: t.literal }
}

/// The diagnostic recorded when the peek token is not what a grammar rule
/// requires.
pub open spec fn peek_error_msg(expected: TokenType, got: TokenType) -> Seq<char> {
    "expected next token to be "@ + token_type_name(expected) + ", got "@ + token_type_name(got)
        + " instead"@
}

/// The diagnostic recorded when a token with no prefix rule appears where
/// an expression is expected.
pub open spec fn no_prefix_msg(k: TokenType) -> Seq<char> {
    "no prefix parse function for "@ + token_type_name(k) + " found"@
}

/// The texts of a list of diagnostics, in order.
pub open spec fn msgs_model(v: Seq<String>) -> Seq<Seq<char>>
    decreases v,
{
    if v.len() == 0 {
        Seq::empty()
    } else {
        msgs_model(v.drop_last()).push(v.last()@)
    }
}

pub proof fn lemma_msgs_model_push(v: Seq<String>, s: String)
    ensures
        msgs_model(v.push(s)) == msgs_model(v).push(s@),
{
    assert(v.push(s).drop_last() =~= v);
    assert(v.push(s).last() == s);
}

/// The decimal value of a digit string.
pub open spec fn digits_val(s: Seq<char>) -> int
    decreases s,
{
    if s.len() == 0 {
        0
    } else {
        10 * digits_val(s.drop_last()) + (s.last() as int - '0' as int)
    }
}

/// Whether every character of `s` is a decimal digit.
pub open spec fn is_digit_seq(s: Seq<char>) -> bool {
    forall|i: int| 0 <= i < s.len() ==> crate::lexer::is_digit_char(#[trigger] s[i])
}

/// The numeric value an integer literal's text parses to: its decimal
/// reading where the text is all digits and the value fits in an `i64`,
/// and zero otherwise (overflow is a stated non-goal).
pub open spec fn int_value_of(lit: Seq<char>) -> i64 {
    if is_digit_seq(lit) && digits_val(lit) <= i64::MAX {
        digits_val(lit) as i64
    } else {
        0
    }
}

/// A position strictly beyond `lo`: `j` where a routine advanced there,
/// used to state loops over positions a subroutine returned.
pub open spec fn bump(lo: int, j: int) -> int {
    if j > lo {
        j
    } else {
        lo + 1
    }
}

/// How many tokens lie at or after position `i`: the measure every parse
/// routine descends on.
pub open spec fn remaining(toks: Seq<TokenModel>, i: int) -> nat {
    if i <= toks.len() {
        (toks.len() - i) as nat
    } else {
        0
    }
}

// ---------------------------------------------------------------------
// The mathematical parser. Each function takes the stream and the index
// of its first token, and returns its node (`None` when the construct is
// abandoned), the index of the construct's last token, and the
// diagnostics it appended.
// ---------------------------------------------------------------------
/// Parses the whole stream into a program: statements until EOF, keeping
/// the ones that parse and the diagnostics of those that do not.
pub open spec fn spec_parse_program(toks: Seq<TokenModel>, i: int) -> (ProgramModel, int, Seq<
    Seq<char>,
>) {
    let (ss, j, e) = spec_parse_stmt_list(toks, i);
    (ProgramModel { statements: ss }, j, e)
}

/// Statements until EOF; a statement that fails to parse is skipped and
/// parsing resumes after it.
#[verifier::opaque]
pub open spec fn spec_parse_stmt_list(toks: Seq<TokenModel>, i: int) -> (Seq<StmtModel>, int, Seq<
    Seq<char>,
>)
    decreases remaining(toks, i), 7int,
{
    if tok_at(toks, i).kind == TokenType::EOF {
        (Seq::empty(), i, Seq::empty())
    } else {
        let (r, c, e) = spec_parse_stmt(toks, i);
        let (ss, k, e2) = spec_parse_stmt_list(toks, bump(i, c + 1));
        (
            match r {
                Some(s) => seq![s] + ss,
                None => ss,
            },
            k,
            e + e2,
        )
    }
}

/// Dispatch on the statement's leading token: `let`, `return`, or an
/// expression statement.
#[verifier::opaque]
pub open spec fn spec_parse_stmt(toks: Seq<TokenModel>, i: int) -> (Option<StmtModel>, int, Seq<
    Seq<char>,
>)
    decreases remaining(toks, i), 6int,
{
    match tok_at(toks, i).kind {
        TokenType::LET => spec_parse_let(toks, i),
        TokenType::RETURN => spec_parse_return(toks, i),
        _ => spec_parse_expr_stmt(toks, i),
    }
}

/// `let IDENT = expression ;` — a wrong name or a missing `=` records a
/// diagnostic and abandons the statement; the trailing semicolon is
/// optional.
#[verifier::opaque]
pub open spec fn spec_parse_let(toks: Seq<TokenModel>, i: int) -> (Option<StmtModel>, int, Seq<
    Seq<char>,
>)
    decreases remaining(toks, i), 5int,
{
    let t = tok_at(toks, i);
    if tok_at(toks, i + 1).kind != TokenType::IDENT {
        (None, i, seq![peek_error_msg(TokenType::IDENT, tok_at(toks, i + 1).kind)])
    } else if tok_at(toks, i + 2).kind != TokenType::ASSIGN {
        (None, i + 1, seq![peek_error_msg(TokenType::ASSIGN, tok_at(toks, i + 2).kind)])
    } else {
        let name = ident_of(tok_at(toks, i + 1));
        let (r, j, e) = spec_parse_expression(toks, i + 3, 0);
        match r {
            None => (None, j, e),
            Some(v) => {
                let stmt = StmtModel::Let { token: t, name, value: v };
                if tok_at(toks, j + 1).kind == TokenType::SEMICOLON {
                    (Some(stmt), j + 1, e)
                } else {
                    (Some(stmt), j, e)
                }
            },
        }
    }
}

/// `return expression ;` — the trailing semicolon is optional.
#[verifier::opaque]
pub open spec fn spec_parse_return(toks: Seq<TokenModel>, i: int) -> (Option<StmtModel>, int, Seq<
    Seq<char>,
>)
    decreases remaining(toks, i), 5int,
{
    let t = tok_at(toks, i);
    if t.kind != TokenType::RETURN {
        (None, i, Seq::empty())
    } else {
        let (r, j, e) = spec_parse_expression(toks, i + 1, 0);
        match r {
            None => (None, j, e),
            Some(v) => {
                let stmt = StmtModel::Return { token: t, value: v };
                if tok_at(toks, j + 1).kind == TokenType::SEMICOLON {
                    (Some(stmt), j + 1, e)
                } else {
                    (Some(stmt), j, e)
                }
            },
        }
    }
}

/// A bare expression in statement position; the trailing semicolon is
/// optional, so a program of bare expressions parses.
#[verifier::opaque]
pub open spec fn spec_parse_expr_stmt(toks: Seq<TokenModel>, i: int) -> (Option<StmtModel>, int, Seq<
    Seq<char>,
>)
    decreases remaining(toks, i), 5int,
{
    let t = tok_at(toks, i);
    let (r, j, e) = spec_parse_expression(toks, i, 0);
    match r {
        None => (None, j, e),
        Some(v) => {
            let stmt = StmtModel::Expr { token: t, value: v };
            if tok_at(toks, j + 1).kind == TokenType::SEMICOLON {
                (Some(stmt), j + 1, e)
            } else {
                (Some(stmt), j, e)
            }
        },
    }
}

/// The precedence-climbing core: a prefix rule gives the left-hand node,
/// then infix rules extend it while the next token binds tighter than
/// `minp`.
pub open spec fn spec_parse_expression(toks: Seq<TokenModel>, i: int, minp: int) -> (Option<
    ExprModel,
>, int, Seq<Seq<char>>)
    decreases remaining(toks, i), 4int,
{
    let (r, j, e) = spec_parse_prefix(toks, i);
    match r {
        None => (None, j, e),
        Some(left) => {
            let j2 = if i < toks.len() && i <= j {
                j
            } else {
                i
            };
            let (r2, k, e2) = spec_parse_infix_loop(toks, j2, left, minp);
            (r2, k, e + e2)
        },
    }
}

/// The prefix position: literals and identifiers stand alone; `!`/`-`
/// parse their operand at the `Prefix` level; `(`, `if` and `fn` open
/// their constructs; any other kind records a diagnostic and yields no
/// node.
pub open spec fn spec_parse_prefix(toks: Seq<TokenModel>, i: int) -> (Option<ExprModel>, int, Seq<
    Seq<char>,
>)
    decreases remaining(toks, i), 3int,
{
    let t = tok_at(toks, i);
    match t.kind {
        TokenType::IDENT => (Some(ExprModel::Ident(ident_of(t))), i, Seq::empty()),
        TokenType::INT => (
            Some(ExprModel::Int { token: t, value: int_value_of(t.literal) }),
            i,
            Seq::empty(),
        ),
        TokenType::TRUE => (Some(ExprModel::Bool { token: t, value: true }), i, Seq::empty()),
        TokenType::FALSE => (Some(ExprModel::Bool { token: t, value: false }), i, Seq::empty()),
        TokenType::BANG => spec_parse_prefix_op(toks, i),
        TokenType::MINUS => spec_parse_prefix_op(toks, i),
        TokenType::LPAREN => spec_parse_grouped(toks, i),
        TokenType::IF => spec_parse_if(toks, i),
        TokenType::FUNCTION => spec_parse_function(toks, i),
        _ => (None, i, seq![no_prefix_msg(t.kind)]),
    }
}

/// A unary operator: the operand is parsed at the `Prefix` level.
pub open spec fn spec_parse_prefix_op(toks: Seq<TokenModel>, i: int) -> (Option<ExprModel>, int, Seq<
    Seq<char>,
>)
    decreases remaining(toks, i), 2int,
{
    let t = tok_at(toks, i);
    if t.kind != TokenType::BANG && t.kind != TokenType::MINUS {
        (None, i, Seq::empty())
    } else {
        let (r, j, e) = spec_parse_expression(toks, i + 1, 5);
        match r {
            Some(rx) => (
                Some(
                    ExprModel::Prefix { token: t, operator: t.literal, right: Box::new(rx) },
                ),
                j,
                e,
            ),
            None => (None, j, e),
        }
    }
}

/// A parenthesized expression: transparent, only a parsing artifact; the
/// closing `)` is required or a diagnostic is recorded.
pub open spec fn spec_parse_grouped(toks: Seq<TokenModel>, i: int) -> (Option<ExprModel>, int, Seq<
    Seq<char>,
>)
    decreases remaining(toks, i), 2int,
{
    if tok_at(toks, i).kind != TokenType::LPAREN {
        (None, i, Seq::empty())
    } else {
        let (r, j, e) = spec_parse_expression(toks, i + 1, 0);
        match r {
            None => (None, j, e),
            Some(inner) => {
                if tok_at(toks, j + 1).kind == TokenType::RPAREN {
                    (Some(inner), j + 1, e)
                } else {
                    (None, j, e.push(peek_error_msg(TokenType::RPAREN, tok_at(toks, j + 1).kind)))
                }
            },
        }
    }
}

/// While the peek token is no statement terminator and binds tighter than
/// `minp`: make it current and extend `left` with its infix rule — a
/// binary operator, or `(` applying `left` as a call.
pub open spec fn spec_parse_infix_loop(
    toks: Seq<TokenModel>,
    j: int,
    left: ExprModel,
    minp: int,
) -> (Option<ExprModel>, int, Seq<Seq<char>>)
    decreases remaining(toks, j), 3int,
{
    let nk = tok_at(toks, j + 1).kind;
    if nk != TokenType::SEMICOLON && minp < prec_of_kind(nk) {
        if is_infix_op(nk) {
            let t = tok_at(toks, j + 1);
            let (r, m, e) = spec_parse_expression(toks, j + 2, prec_of_kind(nk));
            match r {
                None => (None, m, e),
                Some(rx) => {
                    let newleft = ExprModel::Infix {
                        token: t,
                        operator: t.literal,
                        left: Box::new(left),
                        right: Box::new(rx),
                    };
                    let (r2, k, e2) = spec_parse_infix_loop(toks, bump(j + 1, m), newleft, minp);
                    (r2, k, e + e2)
                },
            }
        } else if nk == TokenType::LPAREN {
            let (r, m, e) = spec_parse_call(toks, j + 1, left);
            match r {
                None => (None, m, e),
                Some(cx) => {
                    let (r2, k, e2) = spec_parse_infix_loop(toks, bump(j + 1, m), cx, minp);
                    (r2, k, e + e2)
                },
            }
        } else {
            (Some(left), j, Seq::empty())
        }
    } else {
        (Some(left), j, Seq::empty())
    }
}

/// `if (condition) { consequence }` with an optional
/// `else { alternative }`; each missing delimiter records a diagnostic and
/// abandons the expression.
pub open spec fn spec_parse_if(toks: Seq<TokenModel>, i: int) -> (Option<ExprModel>, int, Seq<
    Seq<char>,
>)
    decreases remaining(toks, i), 2int,
{
    let t = tok_at(toks, i);
    if tok_at(toks, i + 1).kind != TokenType::LPAREN {
        (None, i, seq![peek_error_msg(TokenType::LPAREN, tok_at(toks, i + 1).kind)])
    } else {
        let (c, j, e) = spec_parse_expression(toks, i + 2, 0);
        match c {
            None => (None, j, e),
            Some(cond) => {
                if tok_at(toks, j + 1).kind != TokenType::RPAREN {
                    (None, j, e.push(peek_error_msg(TokenType::RPAREN, tok_at(toks, j + 1).kind)))
                } else if tok_at(toks, j + 2).kind != TokenType::LBRACE {
                    (
                        None,
                        j + 1,
                        e.push(peek_error_msg(TokenType::LBRACE, tok_at(toks, j + 2).kind)),
                    )
                } else {
                    let (cons, k, e2) = spec_parse_block(toks, bump(i, j + 2));
                    if tok_at(toks, k + 1).kind == TokenType::ELSE {
                        if tok_at(toks, k + 2).kind != TokenType::LBRACE {
                            (
                                None,
                                k + 1,
                                e + e2 + seq![
                                    peek_error_msg(TokenType::LBRACE, tok_at(toks, k + 2).kind),
                                ],
                            )
                        } else {
                            let (alt, m, e3) = spec_parse_block(toks, bump(i, k + 2));
                            (
                                Some(
                                    ExprModel::If {
                                        token: t,
                                        condition: Box::new(cond),
                                        consequence: cons,
                                        alternative: Some(alt),
                                    },
                                ),
                                m,
                                e + e2 + e3,
                            )
                        }
                    } else {
                        (
                            Some(
                                ExprModel::If {
                                    token: t,
                                    condition: Box::new(cond),
                                    consequence: cons,
                                    alternative: None,
                                },
                            ),
                            k,
                            e + e2,
                        )
                    }
                }
            },
        }
    }
}

/// `fn (parameters) { body }`; the parameter list may be empty.
pub open spec fn spec_parse_function(toks: Seq<TokenModel>, i: int) -> (Option<ExprModel>, int, Seq<
    Seq<char>,
>)
    decreases remaining(toks, i), 2int,
{
    let t = tok_at(toks, i);
    if tok_at(toks, i + 1).kind != TokenType::LPAREN {
        (None, i, seq![peek_error_msg(TokenType::LPAREN, tok_at(toks, i + 1).kind)])
    } else {
        let (ps, j, e) = spec_parse_fn_params(toks, i + 1);
        match ps {
            None => (None, j, e),
            Some(params) => {
                if tok_at(toks, j + 1).kind != TokenType::LBRACE {
                    (
                        None,
                        j,
                        e.push(peek_error_msg(TokenType::LBRACE, tok_at(toks, j + 1).kind)),
                    )
                } else {
                    let (body, k, e2) = spec_parse_block(toks, bump(i, j + 1));
                    (
                        Some(ExprModel::Function { token: t, parameters: params, body }),
                        k,
                        e + e2,
                    )
                }
            },
        }
    }
}

/// A comma-separated list of identifiers between `(` and `)`; a token
/// that is not an identifier where one is required records a diagnostic
/// and abandons the list.
pub open spec fn spec_parse_fn_params(toks: Seq<TokenModel>, p: int) -> (Option<Seq<IdentModel>>, int, Seq<
    Seq<char>,
>)
    decreases remaining(toks, p), 1int,
{
    if tok_at(toks, p).kind != TokenType::LPAREN {
        (None, p, Seq::empty())
    } else if tok_at(toks, p + 1).kind == TokenType::RPAREN {
        (Some(Seq::empty()), p + 1, Seq::empty())
    } else if tok_at(toks, p + 1).kind == TokenType::IDENT {
        let first = ident_of(tok_at(toks, p + 1));
        let (ps, j, e) = spec_parse_params_loop(toks, p + 1, seq![first]);
        match ps {
            None => (None, j, e),
            Some(params) => {
                if tok_at(toks, j + 1).kind == TokenType::RPAREN {
                    (Some(params), j + 1, e)
                } else {
                    (None, j, e.push(peek_error_msg(TokenType::RPAREN, tok_at(toks, j + 1).kind)))
                }
            },
        }
    } else {
        (None, p, seq![peek_error_msg(TokenType::IDENT, tok_at(toks, p + 1).kind)])
    }
}

/// The rest of a parameter list: identifiers after commas.
pub open spec fn spec_parse_params_loop(toks: Seq<TokenModel>, j: int, acc: Seq<IdentModel>) -> (Option<
    Seq<IdentModel>,
>, int, Seq<Seq<char>>)
    decreases remaining(toks, j), 0int,
{
    if tok_at(toks, j + 1).kind == TokenType::COMMA {
        if tok_at(toks, j + 2).kind == TokenType::IDENT {
            spec_parse_params_loop(toks, bump(j, j + 2), acc.push(ident_of(tok_at(toks, j + 2))))
        } else {
            (None, j + 1, seq![peek_error_msg(TokenType::IDENT, tok_at(toks, j + 2).kind)])
        }
    } else {
        (Some(acc), j, Seq::empty())
    }
}

/// A call: `(` in infix position applies the expression so far to a
/// comma-separated argument list.
pub open spec fn spec_parse_call(toks: Seq<TokenModel>, c: int, callee: ExprModel) -> (Option<
    ExprModel,
>, int, Seq<Seq<char>>)
    decreases remaining(toks, c), 2int,
{
    let t = tok_at(toks, c);
    let (args, k, e) = spec_parse_call_args(toks, c);
    match args {
        None => (None, k, e),
        Some(arglist) => (
            Some(ExprModel::Call { token: t, callee: Box::new(callee), arguments: arglist }),
            k,
            e,
        ),
    }
}

/// A comma-separated list of argument expressions between `(` and `)`;
/// the closing `)` is required or a diagnostic is recorded.
pub open spec fn spec_parse_call_args(toks: Seq<TokenModel>, c: int) -> (Option<Seq<ExprModel>>, int, Seq<
    Seq<char>,
>)
    decreases remaining(toks, c), 1int,
{
    if tok_at(toks, c).kind != TokenType::LPAREN {
        (None, c, Seq::empty())
    } else if tok_at(toks, c + 1).kind == TokenType::RPAREN {
        (Some(Seq::empty()), c + 1, Seq::empty())
    } else {
        let (r, j, e) = spec_parse_expression(toks, c + 1, 0);
        match r {
            None => (None, j, e),
            Some(first) => {
                let (args, k, e2) = spec_parse_args_loop(toks, bump(c, j), seq![first]);
                match args {
                    None => (None, k, e + e2),
                    Some(arglist) => {
                        if tok_at(toks, k + 1).kind == TokenType::RPAREN {
                            (Some(arglist), k + 1, e + e2)
                        } else {
                            (
                                None,
                                k,
                                (e + e2).push(
                                    peek_error_msg(TokenType::RPAREN, tok_at(toks, k + 1).kind),
                                ),
                            )
                        }
                    },
                }
            },
        }
    }
}

/// The rest of an argument list: expressions after commas.
#[verifier::opaque]
pub open spec fn spec_parse_args_loop(toks: Seq<TokenModel>, j: int, acc: Seq<ExprModel>) -> (Option<
    Seq<ExprModel>,
>, int, Seq<Seq<char>>)
    decreases remaining(toks, j), 0int,
{
    if tok_at(toks, j + 1).kind == TokenType::COMMA {
        let (r, m, e) = spec_parse_expression(toks, j + 2, 0);
        match r {
            None => (None, m, e),
            Some(a) => {
                let (res, k, e2) = spec_parse_args_loop(toks, bump(j, m), acc.push(a));
                (res, k, e + e2)
            },
        }
    } else {
        (Some(acc), j, Seq::empty())
    }
}

/// A brace-delimited block: statements until `}` or the end of the input.
#[verifier::opaque]
pub open spec fn spec_parse_block(toks: Seq<TokenModel>, i: int) -> (BlockModel, int, Seq<
    Seq<char>,
>)
    decreases remaining(toks, i), 1int,
{
    let t = tok_at(toks, i);
    if t.kind != TokenType::LBRACE {
        (BlockModel { token: t, statements: Seq::empty() }, i, Seq::empty())
    } else {
        let (ss, k, e) = spec_parse_block_stmts(toks, i + 1);
        (BlockModel { token: t, statements: ss }, k, e)
    }
}

/// Statements until `}` or EOF; like the program loop, a statement that
/// fails to parse is skipped.
#[verifier::opaque]
pub open spec fn spec_parse_block_stmts(toks: Seq<TokenModel>, j: int) -> (Seq<StmtModel>, int, Seq<
    Seq<char>,
>)
    decreases remaining(toks, j), 7int,
{
    let k = tok_at(toks, j).kind;
    if k == TokenType::RBRACE || k == TokenType::EOF {
        (Seq::empty(), j, Seq::empty())
    } else {
        let (r, c, e) = spec_parse_stmt(toks, j);
        let (ss, m, e2) = spec_parse_block_stmts(toks, bump(j, c + 1));
        (
            match r {
                Some(s) => seq![s] + ss,
                None => ss,
            },
            m,
            e + e2,
        )
    }
}

// ---------------------------------------------------------------------
// Every parse routine leaves the cursor at or after where it started.
// ---------------------------------------------------------------------
pub proof fn lemma_mono_stmt_list(toks: Seq<TokenModel>, i: int)
    ensures
        spec_parse_stmt_list(toks, i).1 >= i,
    decreases remaining(toks, i), 7int,
{
    reveal(spec_parse_stmt_list);
    reveal(spec_parse_stmt);
    if tok_at(toks, i).kind != TokenType::EOF {
        lemma_mono_stmt(toks, i);
        let (r, c, e) = spec_parse_stmt(toks, i);
        lemma_mono_stmt_list(toks, bump(i, c + 1));
    }
}

pub proof fn lemma_mono_stmt(toks: Seq<TokenModel>, i: int)
    ensures
        spec_parse_stmt(toks, i).1 >= i,
    decreases remaining(toks, i), 6int,
{
    reveal(spec_parse_stmt);
    reveal(spec_parse_let);
    reveal(spec_parse_return);
    reveal(spec_parse_expr_stmt);
    match tok_at(toks, i).kind {
        TokenType::LET => lemma_mono_let(toks, i),
        TokenType::RETURN => lemma_mono_return(toks, i),
        _ => lemma_mono_expr_stmt(toks, i),
    }
}

pub proof fn lemma_mono_let(toks: Seq<TokenModel>, i: int)
    ensures
        spec_parse_let(toks, i).1 >= i,
    decreases remaining(toks, i), 5int,
{
    reveal(spec_parse_let);
    if tok_at(toks, i + 1).kind == TokenType::IDENT && tok_at(toks, i + 2).kind
        == TokenType::ASSIGN {
        lemma_mono_expression(toks, i + 3, 0);
    }
}

pub proof fn lemma_mono_return(toks: Seq<TokenModel>, i: int)
    ensures
        spec_parse_return(toks, i).1 >= i,
    decreases remaining(toks, i), 5int,
{
    reveal(spec_parse_return);
    if tok_at(toks, i).kind == TokenType::RETURN {
        lemma_mono_expression(toks, i + 1, 0);
    }
}

pub proof fn lemma_mono_expr_stmt(toks: Seq<TokenModel>, i: int)
    ensures
        spec_parse_expr_stmt(toks, i).1 >= i,
    decreases remaining(toks, i), 5int,
{
    reveal(spec_parse_expr_stmt);
    lemma_mono_expression(toks, i, 0);
}

pub proof fn lemma_mono_expression(toks: Seq<TokenModel>, i: int, minp: int)
    ensures
        spec_parse_expression(toks, i, minp).1 >= i,
    decreases remaining(toks, i), 4int,
{
    lemma_mono_prefix(toks, i);
    let (r, j, e) = spec_parse_prefix(toks, i);
    if r is Some {
        let j2 = if i < toks.len() && i <= j {
            j
        } else {
            i
        };
        lemma_mono_infix_loop(toks, j2, r->0, minp);
    }
}

pub proof fn lemma_mono_prefix(toks: Seq<TokenModel>, i: int)
    ensures
        spec_parse_prefix(toks, i).1 >= i,
    decreases remaining(toks, i), 3int,
{
    match tok_at(toks, i).kind {
        TokenType::BANG => lemma_mono_prefix_op(toks, i),
        TokenType::MINUS => lemma_mono_prefix_op(toks, i),
        TokenType::LPAREN => lemma_mono_grouped(toks, i),
        TokenType::IF => lemma_mono_if(toks, i),
        TokenType::FUNCTION => lemma_mono_function(toks, i),
        _ => {},
    }
}

pub proof fn lemma_mono_prefix_op(toks: Seq<TokenModel>, i: int)
    ensures
        spec_parse_prefix_op(toks, i).1 >= i,
    decreases remaining(toks, i), 2int,
{
    let t = tok_at(toks, i);
    if t.kind == TokenType::BANG || t.kind == TokenType::MINUS {
        lemma_mono_expression(toks, i + 1, 5);
    }
}

pub proof fn lemma_mono_grouped(toks: Seq<TokenModel>, i: int)
    ensures
        spec_parse_grouped(toks, i).1 >= i,
    decreases remaining(toks, i), 2int,
{
    if tok_at(toks, i).kind == TokenType::LPAREN {
        lemma_mono_expression(toks, i + 1, 0);
    }
}

pub proof fn lemma_mono_infix_loop(toks: Seq<TokenModel>, j: int, left: ExprModel, minp: int)
    ensures
        spec_parse_infix_loop(toks, j, left, minp).1 >= j,
    decreases remaining(toks, j), 3int,
{
    let nk = tok_at(toks, j + 1).kind;
    if nk != TokenType::SEMICOLON && minp < prec_of_kind(nk) {
        if is_infix_op(nk) {
            lemma_mono_expression(toks, j + 2, prec_of_kind(nk));
            let (r, m, e) = spec_parse_expression(toks, j + 2, prec_of_kind(nk));
            if r is Some {
                let t = tok_at(toks, j + 1);
                let newleft = ExprModel::Infix {
                    token: t,
                    operator: t.literal,
                    left: Box::new(left),
                    right: Box::new(r->0),
                };
                lemma_mono_infix_loop(toks, bump(j + 1, m), newleft, minp);
            }
        } else if nk == TokenType::LPAREN {
            lemma_mono_call(toks, j + 1, left);
            let (r, m, e) = spec_parse_call(toks, j + 1, left);
            if r is Some {
                lemma_mono_infix_loop(toks, bump(j + 1, m), r->0, minp);
            }
        }
    }
}

pub proof fn lemma_mono_if(toks: Seq<TokenModel>, i: int)
    ensures
        spec_parse_if(toks, i).1 >= i,
    decreases remaining(toks, i), 2int,
{
    reveal(spec_parse_block);
    if tok_at(toks, i + 1).kind == TokenType::LPAREN {
        lemma_mono_expression(toks, i + 2, 0);
        let (c, j, e) = spec_parse_expression(toks, i + 2, 0);
        if c is Some {
            if tok_at(toks, j + 1).kind == TokenType::RPAREN && tok_at(toks, j + 2).kind
                == TokenType::LBRACE {
                lemma_mono_block(toks, bump(i, j + 2));
                let (cons, k, e2) = spec_parse_block(toks, bump(i, j + 2));
                if tok_at(toks, k + 1).kind == TokenType::ELSE && tok_at(toks, k + 2).kind
                    == TokenType::LBRACE {
                    lemma_mono_block(toks, bump(i, k + 2));
                }
            }
        }
    }
}

pub proof fn lemma_mono_function(toks: Seq<TokenModel>, i: int)
    ensures
        spec_parse_function(toks, i).1 >= i,
    decreases remaining(toks, i), 2int,
{
    reveal(spec_parse_block);
    if tok_at(toks, i + 1).kind == TokenType::LPAREN {
        lemma_mono_fn_params(toks, i + 1);
        let (ps, j, e) = spec_parse_fn_params(toks, i + 1);
        if ps is Some && tok_at(toks, j + 1).kind == TokenType::LBRACE {
            lemma_mono_block(toks, bump(i, j + 1));
        }
    }
}

pub proof fn lemma_mono_fn_params(toks: Seq<TokenModel>, p: int)
    ensures
        spec_parse_fn_params(toks, p).1 >= p,
    decreases remaining(toks, p), 1int,
{
    if tok_at(toks, p).kind == TokenType::LPAREN && tok_at(toks, p + 1).kind != TokenType::RPAREN
        && tok_at(toks, p + 1).kind == TokenType::IDENT {
        let first = ident_of(tok_at(toks, p + 1));
        lemma_mono_params_loop(toks, p + 1, seq![first]);
    }
}

pub proof fn lemma_mono_params_loop(toks: Seq<TokenModel>, j: int, acc: Seq<IdentModel>)
    ensures
        spec_parse_params_loop(toks, j, acc).1 >= j,
    decreases remaining(toks, j), 0int,
{
    if tok_at(toks, j + 1).kind == TokenType::COMMA && tok_at(toks, j + 2).kind
        == TokenType::IDENT {
        lemma_mono_params_loop(toks, bump(j, j + 2), acc.push(ident_of(tok_at(toks, j + 2))));
    }
}

pub proof fn lemma_mono_call(toks: Seq<TokenModel>, c: int, callee: ExprModel)
    ensures
        spec_parse_call(toks, c, callee).1 >= c,
    decreases remaining(toks, c), 2int,
{
    lemma_mono_call_args(toks, c);
}

pub proof fn lemma_mono_call_args(toks: Seq<TokenModel>, c: int)
    ensures
        spec_parse_call_args(toks, c).1 >= c,
    decreases remaining(toks, c), 1int,
{
    reveal(spec_parse_args_loop);
    if tok_at(toks, c).kind == TokenType::LPAREN && tok_at(toks, c + 1).kind != TokenType::RPAREN {
        lemma_mono_expression(toks, c + 1, 0);
        let (r, j, e) = spec_parse_expression(toks, c + 1, 0);
        if r is Some {
            lemma_mono_args_loop(toks, bump(c, j), seq![r->0]);
        }
    }
}

pub proof fn lemma_mono_args_loop(toks: Seq<TokenModel>, j: int, acc: Seq<ExprModel>)
    ensures
        spec_parse_args_loop(toks, j, acc).1 >= j,
    decreases remaining(toks, j), 0int,
{
    reveal(spec_parse_args_loop);
    if tok_at(toks, j + 1).kind == TokenType::COMMA {
        lemma_mono_expression(toks, j + 2, 0);
        let (r, m, e) = spec_parse_expression(toks, j + 2, 0);
        if r is Some {
            lemma_mono_args_loop(toks, bump(j, m), acc.push(r->0));
        }
    }
}

pub proof fn lemma_mono_block(toks: Seq<TokenModel>, i: int)
    ensures
        spec_parse_block(toks, i).1 >= i,
    decreases remaining(toks, i), 1int,
{
    reveal(spec_parse_block);
    reveal(spec_parse_block_stmts);
    if tok_at(toks, i).kind == TokenType::LBRACE {
        lemma_mono_block_stmts(toks, i + 1);
    }
}

pub proof fn lemma_mono_block_stmts(toks: Seq<TokenModel>, j: int)
    ensures
        spec_parse_block_stmts(toks, j).1 >= j,
    decreases remaining(toks, j), 7int,
{
    reveal(spec_parse_block_stmts);
    reveal(spec_parse_stmt);
    let k = tok_at(toks, j).kind;
    if k != TokenType::RBRACE && k != TokenType::EOF {
        lemma_mono_stmt(toks, j);
        let (r, c, e) = spec_parse_stmt(toks, j);
        lemma_mono_block_stmts(toks, bump(j, c + 1));
    }
}

// ---------------------------------------------------------------------
// The executable parser.
// ---------------------------------------------------------------------
/// The parser's state: it owns the tokenizer for its lifetime, exposes
/// exactly two tokens of lookahead, and grows a list of diagnostics. The
/// ghost fields carry the full token stream and the cursor's index in it.
pub struct Parser {
    pub lexer: Lexer,
    pub cur_token: Token,
    pub peek_token: Token,
    errors: Vec<String>,
    toks: Ghost<Seq<TokenModel>>,
    pos: Ghost<int>,
}

impl Parser {
    /// The full token stream being parsed, final EOF token included.
    pub closed spec fn stream(&self) -> Seq<TokenModel> {
        self.toks@
    }

    /// The index of the current token in the stream.
    pub closed spec fn position(&self) -> int {
        self.pos@
    }

    /// The diagnostics recorded so far.
    pub closed spec fn errs(&self) -> Seq<Seq<char>> {
        msgs_model(self.errors@)
    }

    /// The two lookahead tokens mirror the stream at the cursor, and the
    /// tokenizer holds exactly the stream's remainder.
    pub closed spec fn wf(&self) -> bool {
        &&& self.lexer.wf()
        &&& wf_stream(self.toks@)
        &&& 0 <= self.pos@
        &&& self.cur_token@ == tok_at(self.toks@, self.pos@)
        &&& self.peek_token@ == tok_at(self.toks@, self.pos@ + 1)
        &&& lex(self.lexer.rest()) == stream_suffix(self.toks@, self.pos@ + 2)
    }

    /// Takes ownership of the tokenizer and fills the two-token window;
    /// the stream to parse is the tokenization of the tokenizer's
    /// remaining text.
    pub fn new(l: Lexer) -> (p: Parser)
        requires
            l.wf(),
        ensures
            p.wf(),
            p.stream() == lex(l.rest()),
            p.position() == 0,
            p.errs() == Seq::<Seq<char>>::empty(),
    {
        let ghost toks = lex(l.rest());
        proof {
            lemma_lex_wf(l.rest());
        }
        let mut lexer = l;
        let ghost s0 = lexer.rest();
        let cur = lexer.next_token();
        proof {
            lemma_lex_step(s0);
        }
        let ghost s1 = lexer.rest();
        let peek = lexer.next_token();
        proof {
            lemma_lex_step(s1);
            if next_tok(s0).0.kind != TokenType::EOF {
                assert(lex(s1) == toks.skip(1));
                assert(toks.len() >= 2);
                assert(peek@ == lex(s1).first());
                assert(lex(s1)[0] == toks[1]);
                if next_tok(s1).0.kind != TokenType::EOF {
                    assert(lex(lexer.rest()) == lex(s1).skip(1));
                    assert(toks.skip(1).skip(1) =~= toks.skip(2));
                    assert(toks[1].kind != TokenType::EOF);
                    assert(2 <= toks.len() - 1);
                    assert(lex(lexer.rest()) == stream_suffix(toks, 2));
                } else {
                    assert(toks[1] == eof_token());
                    assert(toks.len() == 2);
                    assert(lex(lexer.rest()) == seq![eof_token()]);
                    assert(lex(lexer.rest()) == stream_suffix(toks, 2));
                }
            } else {
                assert(toks == seq![eof_token()]);
                assert(cur@ == eof_token());
                assert(lex(s1) == seq![eof_token()]);
                assert(peek@ == eof_token());
                assert(peek@ == tok_at(toks, 1));
                assert(lex(lexer.rest()) == seq![eof_token()]);
                assert(lex(lexer.rest()) == stream_suffix(toks, 2));
            }
        }
        let p = Parser {
            lexer,
            cur_token: cur,
            peek_token: peek,
            errors: Vec::new(),
            toks: Ghost(toks),
            pos: Ghost(0int),
        };
        proof {
            assert(p.errs() =~= Seq::<Seq<char>>::empty());
        }
        p
    }

    /// Slides the two-token window forward by one token.
    pub fn next_token(&mut self)
        requires
            old(self).wf(),
        ensures
            final(self).wf(),
            final(self).stream() == old(self).stream(),
            final(self).position() == old(self).position() + 1,
            final(self).errs() == old(self).errs(),
    {
        let ghost toks = self.toks@;
        let ghost p0 = self.pos@;
        let ghost s = self.lexer.rest();
        self.cur_token = self.peek_token.clone();
        let tok = self.lexer.next_token();
        self.peek_token = tok;
        proof {
            self.pos@ = p0 + 1;
            lemma_lex_step(s);
            if p0 + 2 <= toks.len() - 1 {
                assert(lex(s) == toks.skip(p0 + 2));
                assert(self.peek_token@ == lex(s).first());
                assert(lex(s)[0] == toks[p0 + 2]);
                if toks[p0 + 2].kind != TokenType::EOF {
                    assert(p0 + 2 < toks.len() - 1);
                    assert(lex(self.lexer.rest()) == lex(s).skip(1));
                    assert(toks.skip(p0 + 2).skip(1) =~= toks.skip(p0 + 3));
                    assert(lex(self.lexer.rest()) == stream_suffix(toks, p0 + 3));
                } else {
                    assert(p0 + 2 == toks.len() - 1);
                    assert(toks[p0 + 2] == eof_token());
                    assert(lex(self.lexer.rest()) == seq![eof_token()]);
                    assert(lex(self.lexer.rest()) == stream_suffix(toks, p0 + 3));
                }
            } else {
                assert(lex(s) == seq![eof_token()]);
                assert(self.peek_token@ == eof_token());
                assert(self.peek_token@ == tok_at(toks, p0 + 2));
                assert(lex(self.lexer.rest()) == seq![eof_token()]);
                assert(lex(self.lexer.rest()) == stream_suffix(toks, p0 + 3));
            }
        }
    }

    /// The diagnostics recorded so far, in the order they were found.
    pub fn errors(&self) -> (r: &Vec<String>)
        ensures
            msgs_model(r@) == self.errs(),
    {
        &self.errors
    }

    /// Whether the current token has kind `t`.
    pub fn cur_token_is(&self, t: TokenType) -> (r: bool)
        requires
            self.wf(),
        ensures
            r == (tok_at(self.stream(), self.position()).kind == t),
    {
        self.cur_token.kind == t
    }

    /// Whether the peek token has kind `t`.
    pub fn peek_token_is(&self, t: TokenType) -> (r: bool)
        requires
            self.wf(),
        ensures
            r == (tok_at(self.stream(), self.position() + 1).kind == t),
    {
        self.peek_token.kind == t
    }

    /// Records the diagnostic for a peek token that is not of kind `t`.
    fn peek_error(&mut self, t: TokenType)
        requires
            old(self).wf(),
        ensures
            final(self).wf(),
            final(self).stream() == old(self).stream(),
            final(self).position() == old(self).position(),
            final(self).errs() == old(self).errs().push(
                peek_error_msg(t, tok_at(old(self).stream(), old(self).position() + 1).kind),
            ),
    {
        let mut msg = String::from_str("expected next token to be ");
        let en = token_type_text(t);
        msg.append(en.as_str());
        msg.append(", got ");
        let gn = token_type_text(self.peek_token.kind);
        msg.append(gn.as_str());
        msg.append(" instead");
        proof {
            assert(msg@ =~= peek_error_msg(t, self.peek_token@.kind));
            lemma_msgs_model_push(self.errors@, msg);
        }
        self.errors.push(msg);
    }

    /// Records the diagnostic for a token with no prefix rule.
    fn no_prefix_parse_fn_error(&mut self, t: TokenType)
        requires
            old(self).wf(),
        ensures
            final(self).wf(),
            final(self).stream() == old(self).stream(),
            final(self).position() == old(self).position(),
            final(self).errs() == old(self).errs().push(no_prefix_msg(t)),
    {
        let mut msg = String::from_str("no prefix parse function for ");
        let tn = token_type_text(t);
        msg.append(tn.as_str());
        msg.append(" found");
        proof {
            assert(msg@ =~= no_prefix_msg(t));
            lemma_msgs_model_push(self.errors@, msg);
        }
        self.errors.push(msg);
    }

    /// If the peek token has kind `t`, advances onto it and answers true;
    /// otherwise records the expectation failure and stays put.
    fn expect_peek(&mut self, t: TokenType) -> (r: bool)
        requires
            old(self).wf(),
        ensures
            final(self).wf(),
            final(self).stream() == old(self).stream(),
            tok_at(old(self).stream(), old(self).position() + 1).kind == t ==> (r
                && final(self).position() == old(self).position() + 1
                && final(self).errs() == old(self).errs()),
            tok_at(old(self).stream(), old(self).position() + 1).kind != t ==> (!r
                && final(self).position() == old(self).position()
                && final(self).errs() == old(self).errs().push(
                peek_error_msg(t, tok_at(old(self).stream(), old(self).position() + 1).kind),
            )),
    {
        if self.peek_token_is(t) {
            self.next_token();
            true
        } else {
            self.peek_error(t);
            false
        }
    }

    /// The precedence level of the peek token.
    pub fn peek_precedence(&self) -> (p: Precedence)
        requires
            self.wf(),
        ensures
            prec_level(p) == prec_of_kind(tok_at(self.stream(), self.position() + 1).kind),
    {
        precedence_of(self.peek_token.kind)
    }

    /// The precedence level of the current token.
    pub fn cur_precedence(&self) -> (p: Precedence)
        requires
            self.wf(),
        ensures
            prec_level(p) == prec_of_kind(tok_at(self.stream(), self.position()).kind),
    {
        precedence_of(self.cur_token.kind)
    }
}

/// The fixed precedence table as a function: the level a token kind binds
/// with in infix position.
pub fn precedence_of(t: TokenType) -> (p: Precedence)
    ensures
        prec_level(p) == prec_of_kind(t),
{
    match t {
        TokenType::EQ => Precedence::Equals,
        TokenType::NotEq => Precedence::Equals,
        TokenType::LT => Precedence::LessGreater,
        TokenType::GT => Precedence::LessGreater,
        TokenType::PLUS => Precedence::Sum,
        TokenType::MINUS => Precedence::Sum,
        TokenType::SLASH => Precedence::Product,
        TokenType::ASTERISK => Precedence::Product,
        TokenType::LPAREN => Precedence::Call,
        _ => Precedence::Lowest,
    }
}

/// The numeric binding power of a precedence level, for comparisons.
pub fn precedence_value(p: Precedence) -> (n: u8)
    ensures
        n as int == prec_level(p),
{
    match p {
        Precedence::Lowest => 0,
        Precedence::Equals => 1,
        Precedence::LessGreater => 2,
        Precedence::Sum => 3,
        Precedence::Product => 4,
        Precedence::Prefix => 5,
        Precedence::Call => 6,
    }
}


// ---------------------------------------------------------------------
// Models of optional results, for stating the routines' contracts.
// ---------------------------------------------------------------------
/// The model of an optional expression.
pub open spec fn opt_expr_model(r: Option<Expression>) -> Option<ExprModel> {
    match r {
        Some(e) => Some(e.model()),
        None => None,
    }
}

/// The model of an optional statement.
pub open spec fn opt_stmt_model(r: Option<Statement>) -> Option<StmtModel> {
    match r {
        Some(s) => Some(s.model()),
        None => None,
    }
}

// ---------------------------------------------------------------------
// Digit strings and their values.
// ---------------------------------------------------------------------
pub proof fn lemma_digits_val_nonneg(s: Seq<char>)
    requires
        is_digit_seq(s),
    ensures
        digits_val(s) >= 0,
    decreases s,
{
    if s.len() > 0 {
        assert forall|i: int| 0 <= i < s.drop_last().len() implies crate::lexer::is_digit_char(
            #[trigger] s.drop_last()[i],
        ) by {
            assert(s.drop_last()[i] == s[i]);
        }
        lemma_digits_val_nonneg(s.drop_last());
        assert(crate::lexer::is_digit_char(s[s.len() - 1]));
    }
}

/// For a digit string, the value of a prefix never exceeds the value of
/// the whole.
pub proof fn lemma_digits_val_prefix(s: Seq<char>, a: int)
    requires
        is_digit_seq(s),
        0 <= a <= s.len(),
    ensures
        digits_val(s.take(a)) <= digits_val(s),
    decreases s.len() - a,
{
    if a == s.len() {
        assert(s.take(a) =~= s);
    } else {
        lemma_digits_val_prefix(s, a + 1);
        let t1 = s.take(a + 1);
        assert(t1.drop_last() =~= s.take(a));
        assert(t1.last() == s[a]);
        assert forall|i: int| 0 <= i < a implies crate::lexer::is_digit_char(
            #[trigger] s.take(a)[i],
        ) by {
            assert(s.take(a)[i] == s[i]);
        }
        lemma_digits_val_nonneg(s.take(a));
        assert(crate::lexer::is_digit_char(s[a]));
        assert(digits_val(s.take(a)) <= digits_val(s.take(a + 1)));
    }
}

/// Exactness of the overflow test: a digit pushed onto an accumulator
/// beyond the threshold overflows an `i64`.
pub proof fn lemma_overflow_step(value: int, d: int)
    requires
        0 <= d <= 9,
        0 <= value,
        value > (i64::MAX - d) / 10,
    ensures
        10 * value + d > i64::MAX,
{
    let m = i64::MAX - d;
    vstd::arithmetic::div_mod::lemma_fundamental_div_mod(m, 10);
    vstd::arithmetic::div_mod::lemma_mod_bound(m, 10);
    assert(value >= m / 10 + 1);
    assert(10 * value >= 10 * (m / 10) + 10) by (nonlinear_arith)
        requires
            value >= m / 10 + 1,
    ;
}

impl Parser {
    /// An identifier in prefix position: the current token as an
    /// `Identifier` node; the cursor does not move.
    fn parse_identifier(&mut self) -> (res: Expression)
        requires
            old(self).wf(),
        ensures
            final(self).wf(),
            final(self).stream() == old(self).stream(),
            final(self).position() == old(self).position(),
            final(self).errs() == old(self).errs(),
            res.model() == ExprModel::Ident(
                ident_of(tok_at(old(self).stream(), old(self).position())),
            ),
    {
        Expression::Ident(
            Identifier { token: self.cur_token.clone(), value: self.cur_token.literal.clone() },
        )
    }

    /// A boolean literal in prefix position; its value is whether the
    /// current token is the `true` keyword.
    fn parse_boolean(&mut self) -> (res: Expression)
        requires
            old(self).wf(),
        ensures
            final(self).wf(),
            final(self).stream() == old(self).stream(),
            final(self).position() == old(self).position(),
            final(self).errs() == old(self).errs(),
            res.model() == (ExprModel::Bool {
                token: tok_at(old(self).stream(), old(self).position()),
                value: tok_at(old(self).stream(), old(self).position()).kind == TokenType::TRUE,
            }),
    {
        let v = self.cur_token_is(TokenType::TRUE);
        Expression::Bool(BooleanLiteral { token: self.cur_token.clone(), value: v })
    }

    /// An integer literal in prefix position: the token's digits read in
    /// decimal. A value that does not fit in an `i64` yields zero —
    /// overflow checking is a stated non-goal.
    #[verifier::loop_isolation(false)]
    #[verifier::rlimit(100)]
    #[verifier::spinoff_prover]
    fn parse_integer_literal(&mut self) -> (res: Expression)
        requires
            old(self).wf(),
        ensures
            final(self).wf(),
            final(self).stream() == old(self).stream(),
            final(self).position() == old(self).position(),
            final(self).errs() == old(self).errs(),
            res.model() == (ExprModel::Int {
                token: tok_at(old(self).stream(), old(self).position()),
                value: int_value_of(tok_at(old(self).stream(), old(self).position()).literal),
            }),
    {
        let tok = self.cur_token.clone();
        let ghost lit = tok.literal@;
        let n = tok.literal.as_str().unicode_len();
        let mut value: i64 = 0;
        let mut i: usize = 0;
        while i < n
            invariant
                i <= n,
                n == lit.len(),
                tok.literal@ == lit,
                0 <= value <= i64::MAX,
                value == digits_val(lit.take(i as int)),
                forall|j: int| 0 <= j < i ==> crate::lexer::is_digit_char(#[trigger] lit[j]),
            decreases n - i,
        {
            let c = tok.literal.as_str().get_char(i);
            if c < '0' || c > '9' {
                proof {
                    assert(!crate::lexer::is_digit_char(lit[i as int]));
                    assert(!is_digit_seq(lit));
                }
                return Expression::Int(IntegerLiteral { token: tok, value: 0 });
            }
            let d: i64 = ((c as u32) - ('0' as u32)) as i64;
            if value > (i64::MAX - d) / 10 {
                proof {
                    lemma_overflow_step(value as int, d as int);
                    assert(lit.take(i as int + 1).drop_last() =~= lit.take(i as int));
                    assert(lit.take(i as int + 1).last() == lit[i as int]);
                    assert(digits_val(lit.take(i as int + 1)) > i64::MAX);
                    if is_digit_seq(lit) {
                        lemma_digits_val_prefix(lit, i as int + 1);
                        assert(digits_val(lit) > i64::MAX);
                    }
                }
                return Expression::Int(IntegerLiteral { token: tok, value: 0 });
            }
            proof {
                assert(lit.take(i as int + 1).drop_last() =~= lit.take(i as int));
                assert(lit.take(i as int + 1).last() == lit[i as int]);
            }
            value = value * 10 + d;
            i = i + 1;
        }
        proof {
            assert(lit.take(n as int) =~= lit);
            assert(is_digit_seq(lit));
            assert(value == int_value_of(lit));
        }
        Expression::Int(IntegerLiteral { token: tok, value })
    }

    /// A unary `!` or `-`: captures the operator and parses its operand
    /// at the `Prefix` level.
    fn parse_prefix_expression(&mut self) -> (res: Option<Expression>)
        requires
            old(self).wf(),
            tok_at(old(self).stream(), old(self).position()).kind == TokenType::BANG || tok_at(
                old(self).stream(),
                old(self).position(),
            ).kind == TokenType::MINUS,
        ensures
            final(self).wf(),
            final(self).stream() == old(self).stream(),
            ({
                let (r, j, e) = spec_parse_prefix_op(old(self).stream(), old(self).position());
                &&& opt_expr_model(res) == r
                &&& final(self).position() == j
                &&& final(self).errs() == old(self).errs() + e
            }),
        decreases remaining(self.stream(), self.position()), 2int,
    {
        let ghost s0 = self.stream();
        let ghost p0 = self.position();
        let tok = self.cur_token.clone();
        let op = self.cur_token.literal.clone();
        self.next_token();
        let right = self.parse_expression(Precedence::Prefix);
        match right {
            Some(rx) => {
                let res = Expression::Prefix(
                    PrefixExpression { token: tok, operator: op, right: Box::new(rx) },
                );
                Some(res)
            },
            None => None,
        }
    }

    /// A parenthesized expression: parses the inside at the lowest level
    /// and requires the closing `)`.
    fn parse_grouped_expression(&mut self) -> (res: Option<Expression>)
        requires
            old(self).wf(),
            tok_at(old(self).stream(), old(self).position()).kind == TokenType::LPAREN,
        ensures
            final(self).wf(),
            final(self).stream() == old(self).stream(),
            ({
                let (r, j, e) = spec_parse_grouped(old(self).stream(), old(self).position());
                &&& opt_expr_model(res) == r
                &&& final(self).position() == j
                &&& final(self).errs() == old(self).errs() + e
            }),
        decreases remaining(self.stream(), self.position()), 2int,
    {
        let ghost s0 = self.stream();
        let ghost p0 = self.position();
        self.next_token();
        let inner = self.parse_expression(Precedence::Lowest);
        match inner {
            None => None,
            Some(x) => {
                if self.expect_peek(TokenType::RPAREN) {
                    Some(x)
                } else {
                    proof {
                        let (r, j, e) = spec_parse_expression(s0, p0 + 1, 0);
                        assert((old(self).errs() + e).push(
                            peek_error_msg(TokenType::RPAREN, tok_at(s0, j + 1).kind),
                        ) =~= old(self).errs() + e.push(
                            peek_error_msg(TokenType::RPAREN, tok_at(s0, j + 1).kind),
                        ));
                    }
                    None
                }
            },
        }
    }

    /// `if (condition) { consequence }` with an optional
    /// `else { alternative }`.
    #[verifier::rlimit(100)]
    #[verifier::spinoff_prover]
    fn parse_if_expression(&mut self) -> (res: Option<Expression>)
        requires
            old(self).wf(),
            tok_at(old(self).stream(), old(self).position()).kind == TokenType::IF,
        ensures
            final(self).wf(),
            final(self).stream() == old(self).stream(),
            ({
                let (r, j, e) = spec_parse_if(old(self).stream(), old(self).position());
                &&& opt_expr_model(res) == r
                &&& final(self).position() == j
                &&& final(self).errs() == old(self).errs() + e
            }),
        decreases remaining(self.stream(), self.position()), 2int,
    {
        let ghost s0 = self.stream();
        let ghost p0 = self.position();
        let tok = self.cur_token.clone();
        if !self.expect_peek(TokenType::LPAREN) {
            proof {
                assert(old(self).errs().push(
                    peek_error_msg(TokenType::LPAREN, tok_at(s0, p0 + 1).kind),
                ) =~= old(self).errs() + seq![
                    peek_error_msg(TokenType::LPAREN, tok_at(s0, p0 + 1).kind),
                ]);
            }
            return None;
        }
        self.next_token();
        let cond = match self.parse_expression(Precedence::Lowest) {
            Some(c) => c,
            None => {
                return None;
            },
        };
        let ghost j = self.position();
        if !self.expect_peek(TokenType::RPAREN) {
            proof {
                let (c, j1, e) = spec_parse_expression(s0, p0 + 2, 0);
                assert((old(self).errs() + e).push(
                    peek_error_msg(TokenType::RPAREN, tok_at(s0, j + 1).kind),
                ) =~= old(self).errs() + e.push(
                    peek_error_msg(TokenType::RPAREN, tok_at(s0, j + 1).kind),
                ));
            }
            return None;
        }
        if !self.expect_peek(TokenType::LBRACE) {
            proof {
                let (c, j1, e) = spec_parse_expression(s0, p0 + 2, 0);
                assert((old(self).errs() + e).push(
                    peek_error_msg(TokenType::LBRACE, tok_at(s0, j + 2).kind),
                ) =~= old(self).errs() + e.push(
                    peek_error_msg(TokenType::LBRACE, tok_at(s0, j + 2).kind),
                ));
            }
            return None;
        }
        proof {
            lemma_mono_expression(s0, p0 + 2, 0);
            assert(bump(p0, j + 2) == j + 2);
        }
        let consequence = self.parse_block_statement();
        let ghost k = self.position();
        let ghost e = spec_parse_expression(s0, p0 + 2, 0).2;
        let ghost e2 = spec_parse_block(s0, j + 2).2;
        if self.peek_token_is(TokenType::ELSE) {
            self.next_token();
            if !self.expect_peek(TokenType::LBRACE) {
                proof {
                    assert((old(self).errs() + e + e2).push(
                        peek_error_msg(TokenType::LBRACE, tok_at(s0, k + 2).kind),
                    ) =~= old(self).errs() + (e + e2 + seq![
                        peek_error_msg(TokenType::LBRACE, tok_at(s0, k + 2).kind),
                    ]));
                }
                return None;
            }
            proof {
                lemma_mono_block(s0, bump(p0, j + 2));
                assert(bump(p0, k + 2) == k + 2);
            }
            let alternative = self.parse_block_statement();
            let ghost e3 = spec_parse_block(s0, k + 2).2;
            let res = Expression::If(
                crate::ast::IfExpression {
                    token: tok,
                    condition: Box::new(cond),
                    consequence,
                    alternative: Some(alternative),
                },
            );
            proof {
                assert(old(self).errs() + e + e2 + e3 =~= old(self).errs() + (e + e2 + e3));
            }
            Some(res)
        } else {
            let res = Expression::If(
                crate::ast::IfExpression {
                    token: tok,
                    condition: Box::new(cond),
                    consequence,
                    alternative: None,
                },
            );
            proof {
                assert(old(self).errs() + e + e2 =~= old(self).errs() + (e + e2));
            }
            Some(res)
        }
    }

    /// `fn (parameters) { body }`.
    #[verifier::rlimit(100)]
    #[verifier::spinoff_prover]
    fn parse_function_literal(&mut self) -> (res: Option<Expression>)
        requires
            old(self).wf(),
            tok_at(old(self).stream(), old(self).position()).kind == TokenType::FUNCTION,
        ensures
            final(self).wf(),
            final(self).stream() == old(self).stream(),
            ({
                let (r, j, e) = spec_parse_function(old(self).stream(), old(self).position());
                &&& opt_expr_model(res) == r
                &&& final(self).position() == j
                &&& final(self).errs() == old(self).errs() + e
            }),
        decreases remaining(self.stream(), self.position()), 2int,
    {
        let ghost s0 = self.stream();
        let ghost p0 = self.position();
        let tok = self.cur_token.clone();
        if !self.expect_peek(TokenType::LPAREN) {
            proof {
                assert(old(self).errs().push(
                    peek_error_msg(TokenType::LPAREN, tok_at(s0, p0 + 1).kind),
                ) =~= old(self).errs() + seq![
                    peek_error_msg(TokenType::LPAREN, tok_at(s0, p0 + 1).kind),
                ]);
            }
            return None;
        }
        let parameters = match self.parse_function_parameters() {
            Some(ps) => ps,
            None => {
                return None;
            },
        };
        let ghost j = self.position();
        if !self.expect_peek(TokenType::LBRACE) {
            proof {
                let (ps, j1, e) = spec_parse_fn_params(s0, p0 + 1);
                assert((old(self).errs() + e).push(
                    peek_error_msg(TokenType::LBRACE, tok_at(s0, j + 1).kind),
                ) =~= old(self).errs() + e.push(
                    peek_error_msg(TokenType::LBRACE, tok_at(s0, j + 1).kind),
                ));
            }
            return None;
        }
        proof {
            lemma_mono_fn_params(s0, p0 + 1);
            assert(bump(p0, j + 1) == j + 1);
        }
        let body = self.parse_block_statement();
        let res = Expression::Function(
            crate::ast::FunctionLiteral { token: tok, parameters, body },
        );
        proof {
            let (ps, j1, e) = spec_parse_fn_params(s0, p0 + 1);
            let (b, k, e2) = spec_parse_block(s0, j + 1);
            assert(old(self).errs() + e + e2 =~= old(self).errs() + (e + e2));
        }
        Some(res)
    }

    /// The comma-separated identifier list of a function literal; the
    /// empty list is permitted.
    #[verifier::rlimit(100)]
    #[verifier::spinoff_prover]
    fn parse_function_parameters(&mut self) -> (res: Option<Vec<Identifier>>)
        requires
            old(self).wf(),
            tok_at(old(self).stream(), old(self).position()).kind == TokenType::LPAREN,
        ensures
            final(self).wf(),
            final(self).stream() == old(self).stream(),
            ({
                let (ps, j, e) = spec_parse_fn_params(old(self).stream(), old(self).position());
                &&& (match res {
                    Some(v) => ps == Some(crate::ast::ident_seq_model(v@)),
                    None => ps is None,
                })
                &&& final(self).position() == j
                &&& final(self).errs() == old(self).errs() + e
            }),
    {
        let ghost s0 = self.stream();
        let ghost p0 = self.position();
        let ghost e0 = old(self).errs();
        let mut idents: Vec<Identifier> = Vec::new();
        if self.peek_token_is(TokenType::RPAREN) {
            self.next_token();
            proof {
                assert(crate::ast::ident_seq_model(idents@) =~= Seq::<IdentModel>::empty());
                assert(e0 + Seq::<Seq<char>>::empty() =~= e0);
            }
            return Some(idents);
        }
        if !self.expect_peek(TokenType::IDENT) {
            proof {
                assert(e0.push(peek_error_msg(TokenType::IDENT, tok_at(s0, p0 + 1).kind)) =~= e0
                    + seq![peek_error_msg(TokenType::IDENT, tok_at(s0, p0 + 1).kind)]);
            }
            return None;
        }
        let ghost pre0 = idents@;
        idents.push(
            Identifier { token: self.cur_token.clone(), value: self.cur_token.literal.clone() },
        );
        let ghost acc0 = seq![ident_of(tok_at(s0, p0 + 1))];
        proof {
            assert(idents@.drop_last() =~= pre0);
            assert(crate::ast::ident_seq_model(pre0) =~= Seq::<IdentModel>::empty());
            assert(idents@.last().model() == ident_of(tok_at(s0, p0 + 1)));
            assert(crate::ast::ident_seq_model(idents@) =~= acc0);
        }
        loop
            invariant
                self.wf(),
                self.stream() == s0,
                self.position() >= p0 + 1,
                self.errs() == e0,
                s0 == old(self).stream(),
                p0 == old(self).position(),
                e0 == old(self).errs(),
                tok_at(s0, p0).kind == TokenType::LPAREN,
                tok_at(s0, p0 + 1).kind == TokenType::IDENT,
                acc0 == seq![ident_of(tok_at(s0, p0 + 1))],
                ({
                    let t = spec_parse_params_loop(s0, p0 + 1, acc0);
                    let l = spec_parse_params_loop(
                        s0,
                        self.position(),
                        crate::ast::ident_seq_model(idents@),
                    );
                    t == l
                }),
            ensures
                self.wf(),
                self.stream() == s0,
                self.errs() == e0,
                spec_parse_params_loop(s0, p0 + 1, acc0) == (
                    Some(crate::ast::ident_seq_model(idents@)),
                    self.position(),
                    Seq::<Seq<char>>::empty(),
                ),
            decreases remaining(s0, self.position()),
        {
            if !self.peek_token_is(TokenType::COMMA) {
                break ;
            }
            let ghost jpos = self.position();
            self.next_token();
            if !self.expect_peek(TokenType::IDENT) {
                proof {
                    let t = spec_parse_params_loop(s0, p0 + 1, acc0);
                    assert(t == (
                        None::<Seq<IdentModel>>,
                        jpos + 1,
                        seq![peek_error_msg(TokenType::IDENT, tok_at(s0, jpos + 2).kind)],
                    ));
                    assert(e0.push(peek_error_msg(TokenType::IDENT, tok_at(s0, jpos + 2).kind))
                        =~= e0 + seq![
                        peek_error_msg(TokenType::IDENT, tok_at(s0, jpos + 2).kind),
                    ]);
                }
                return None;
            }
            let ghost pre = idents@;
            idents.push(
                Identifier {
                    token: self.cur_token.clone(),
                    value: self.cur_token.literal.clone(),
                },
            );
            proof {
                assert(idents@.drop_last() =~= pre);
                assert(idents@.last().model() == ident_of(tok_at(s0, jpos + 2)));
                assert(crate::ast::ident_seq_model(idents@) == crate::ast::ident_seq_model(
                    pre,
                ).push(ident_of(tok_at(s0, jpos + 2))));
                assert(bump(jpos, jpos + 2) == jpos + 2);
                assert(spec_parse_params_loop(s0, jpos, crate::ast::ident_seq_model(pre))
                    == spec_parse_params_loop(s0, jpos + 2, crate::ast::ident_seq_model(idents@)));
            }
        }
        if !self.expect_peek(TokenType::RPAREN) {
            proof {
                let (ps, j, e) = spec_parse_fn_params(s0, p0);
                assert(e0.push(
                    peek_error_msg(TokenType::RPAREN, tok_at(s0, self.position() + 1).kind),
                ) =~= e0 + Seq::<Seq<char>>::empty().push(
                    peek_error_msg(TokenType::RPAREN, tok_at(s0, self.position() + 1).kind),
                ));
            }
            return None;
        }
        proof {
            assert(e0 + Seq::<Seq<char>>::empty() =~= e0);
        }
        Some(idents)
    }

    /// A binary operator in infix position: captures the operator and its
    /// precedence, then parses the right operand at that precedence, so
    /// every operator associates to the left.
    fn parse_infix_expression(&mut self, left: Expression) -> (res: Option<Expression>)
        requires
            old(self).wf(),
            is_infix_op(tok_at(old(self).stream(), old(self).position()).kind),
        ensures
            final(self).wf(),
            final(self).stream() == old(self).stream(),
            ({
                let t = tok_at(old(self).stream(), old(self).position());
                let (r, m, e) = spec_parse_expression(
                    old(self).stream(),
                    old(self).position() + 1,
                    prec_of_kind(t.kind),
                );
                &&& opt_expr_model(res) == (match r {
                    Some(rx) => Some(
                        ExprModel::Infix {
                            token: t,
                            operator: t.literal,
                            left: Box::new(left.model()),
                            right: Box::new(rx),
                        },
                    ),
                    None => None::<ExprModel>,
                })
                &&& final(self).position() == m
                &&& final(self).errs() == old(self).errs() + e
            }),
        decreases remaining(self.stream(), self.position()), 2int,
    {
        let tok = self.cur_token.clone();
        let op = self.cur_token.literal.clone();
        let precedence = self.cur_precedence();
        self.next_token();
        let right = self.parse_expression(precedence);
        match right {
            Some(rx) => {
                let res = Expression::Infix(
                    crate::ast::InfixExpression {
                        token: tok,
                        operator: op,
                        left: Box::new(left),
                        right: Box::new(rx),
                    },
                );
                Some(res)
            },
            None => None,
        }
    }

    /// A call in infix position: `(` applies the expression so far to the
    /// argument list.
    fn parse_call_expression(&mut self, callee: Expression) -> (res: Option<Expression>)
        requires
            old(self).wf(),
            tok_at(old(self).stream(), old(self).position()).kind == TokenType::LPAREN,
        ensures
            final(self).wf(),
            final(self).stream() == old(self).stream(),
            ({
                let (r, m, e) = spec_parse_call(
                    old(self).stream(),
                    old(self).position(),
                    callee.model(),
                );
                &&& opt_expr_model(res) == r
                &&& final(self).position() == m
                &&& final(self).errs() == old(self).errs() + e
            }),
        decreases remaining(self.stream(), self.position()), 2int,
    {
        let tok = self.cur_token.clone();
        let arguments = match self.parse_call_arguments() {
            Some(a) => a,
            None => {
                return None;
            },
        };
        let res = Expression::Call(
            crate::ast::CallExpression { token: tok, callee: Box::new(callee), arguments },
        );
        Some(res)
    }

    /// The comma-separated argument list of a call; the empty list is
    /// permitted, and the closing `)` is required.
    #[verifier::rlimit(100)]
    #[verifier::spinoff_prover]
    fn parse_call_arguments(&mut self) -> (res: Option<Vec<Expression>>)
        requires
            old(self).wf(),
            tok_at(old(self).stream(), old(self).position()).kind == TokenType::LPAREN,
        ensures
            final(self).wf(),
            final(self).stream() == old(self).stream(),
            ({
                let (args, j, e) = spec_parse_call_args(old(self).stream(), old(self).position());
                &&& (match res {
                    Some(v) => args == Some(crate::ast::expr_seq_model(v@)),
                    None => args is None,
                })
                &&& final(self).position() == j
                &&& final(self).errs() == old(self).errs() + e
            }),
        decreases remaining(self.stream(), self.position()), 1int,
    {
        let ghost s0 = self.stream();
        let ghost p0 = self.position();
        let ghost e0 = old(self).errs();
        let mut args: Vec<Expression> = Vec::new();
        if self.peek_token_is(TokenType::RPAREN) {
            self.next_token();
            proof {
                assert(crate::ast::expr_seq_model(args@) =~= Seq::<ExprModel>::empty());
                assert(e0 + Seq::<Seq<char>>::empty() =~= e0);
            }
            return Some(args);
        }
        self.next_token();
        let first = match self.parse_expression(Precedence::Lowest) {
            Some(x) => x,
            None => {
                return None;
            },
        };
        let ghost efirst = spec_parse_expression(s0, p0 + 1, 0).2;
        proof {
            lemma_mono_expression(s0, p0 + 1, 0);
            assert(bump(p0, self.position()) == self.position());
        }
        proof {
            reveal(spec_parse_args_loop);
        }
        let ghost pre0 = args@;
        args.push(first);
        let ghost acc0 = seq![spec_parse_expression(s0, p0 + 1, 0).0->0];
        let ghost loopstart = self.position();
        proof {
            assert(args@.drop_last() =~= pre0);
            assert(crate::ast::expr_seq_model(pre0) =~= Seq::<ExprModel>::empty());
            assert(args@.last() == first);
            assert(crate::ast::expr_seq_model(args@) =~= acc0);
        }
        loop
            invariant
                self.wf(),
                self.stream() == s0,
                self.position() >= p0 + 1,
                s0 == old(self).stream(),
                p0 == old(self).position(),
                e0 == old(self).errs(),
                tok_at(s0, p0).kind == TokenType::LPAREN,
                tok_at(s0, p0 + 1).kind != TokenType::RPAREN,
                spec_parse_expression(s0, p0 + 1, 0).0 is Some,
                acc0 == seq![spec_parse_expression(s0, p0 + 1, 0).0->0],
                efirst == spec_parse_expression(s0, p0 + 1, 0).2,
                loopstart == bump(p0, spec_parse_expression(s0, p0 + 1, 0).1),
                ({
                    let t = spec_parse_args_loop(s0, loopstart, acc0);
                    let l = spec_parse_args_loop(
                        s0,
                        self.position(),
                        crate::ast::expr_seq_model(args@),
                    );
                    &&& t.0 == l.0
                    &&& t.1 == l.1
                    &&& e0 + efirst + t.2 == self.errs() + l.2
                }),
            ensures
                self.wf(),
                self.stream() == s0,
                ({
                    let t = spec_parse_args_loop(s0, loopstart, acc0);
                    &&& t.0 == Some(crate::ast::expr_seq_model(args@))
                    &&& t.1 == self.position()
                    &&& e0 + efirst + t.2 == self.errs()
                }),
            decreases remaining(s0, self.position()),
        {
            if !self.peek_token_is(TokenType::COMMA) {
                proof {
                    reveal(spec_parse_args_loop);
                    let l = spec_parse_args_loop(
                        s0,
                        self.position(),
                        crate::ast::expr_seq_model(args@),
                    );
                    assert(self.errs() + Seq::<Seq<char>>::empty() =~= self.errs());
                }
                break ;
            }
            let ghost jpos = self.position();
            let ghost errs_before = self.errs();
            self.next_token();
            self.next_token();
            let nxt = match self.parse_expression(Precedence::Lowest) {
                Some(x) => x,
                None => {
                    proof {
                        reveal(spec_parse_args_loop);
                        let (r, m, e) = spec_parse_expression(s0, jpos + 2, 0);
                        let t = spec_parse_args_loop(s0, loopstart, acc0);
                        assert(e0 + efirst + t.2 =~= errs_before + e);
                    }
                    return None;
                },
            };
            proof {
                lemma_mono_expression(s0, jpos + 2, 0);
                assert(bump(jpos, self.position()) == self.position());
            }
            let ghost pre = args@;
            args.push(nxt);
            proof {
                assert(args@.drop_last() =~= pre);
                assert(args@.last() == nxt);
                assert(crate::ast::expr_seq_model(args@) == crate::ast::expr_seq_model(
                    pre,
                ).push(nxt.model()));
                reveal_with_fuel(spec_parse_args_loop, 2);
                let (r, m, e) = spec_parse_expression(s0, jpos + 2, 0);
                let t = spec_parse_args_loop(s0, loopstart, acc0);
                let lold = spec_parse_args_loop(s0, jpos, crate::ast::expr_seq_model(pre));
                let lnew = spec_parse_args_loop(
                    s0,
                    self.position(),
                    crate::ast::expr_seq_model(args@),
                );
                assert(tok_at(s0, jpos + 1).kind == TokenType::COMMA);
                assert(r is Some);
                assert(r->0 == nxt.model());
                assert(m == self.position());
                assert(bump(jpos, m) == m);
                assert(crate::ast::expr_seq_model(pre).push(r->0) == crate::ast::expr_seq_model(
                    args@,
                ));
                assert(spec_parse_args_loop(s0, bump(jpos, m), crate::ast::expr_seq_model(
                    pre,
                ).push(r->0)) == lnew);
                assert(lold.0 == lnew.0);
                assert(lold.1 == lnew.1);
                assert(lold.2 == e + lnew.2);
                assert(errs_before + (e + lnew.2) =~= (errs_before + e) + lnew.2);
                assert(e0 + efirst + t.2 == (errs_before + e) + lnew.2);
            }
        }
        if !self.expect_peek(TokenType::RPAREN) {
            proof {
                let t = spec_parse_args_loop(s0, loopstart, acc0);
                assert(e0 + efirst + t.2 =~= e0 + (efirst + t.2));
                assert((e0 + (efirst + t.2)).push(
                    peek_error_msg(TokenType::RPAREN, tok_at(s0, t.1 + 1).kind),
                ) =~= e0 + (efirst + t.2).push(
                    peek_error_msg(TokenType::RPAREN, tok_at(s0, t.1 + 1).kind),
                ));
            }
            return None;
        }
        proof {
            let t = spec_parse_args_loop(s0, loopstart, acc0);
            assert(e0 + efirst + t.2 =~= e0 + (efirst + t.2));
        }
        Some(args)
    }

    /// A brace-delimited block: statements until `}` or the end of the
    /// input; like the program loop, a failed statement is skipped.
    #[verifier::rlimit(100)]
    #[verifier::spinoff_prover]
    fn parse_block_statement(&mut self) -> (res: BlockStatement)
        requires
            old(self).wf(),
            tok_at(old(self).stream(), old(self).position()).kind == TokenType::LBRACE,
        ensures
            final(self).wf(),
            final(self).stream() == old(self).stream(),
            ({
                let (b, k, e) = spec_parse_block(old(self).stream(), old(self).position());
                &&& res.model() == b
                &&& final(self).position() == k
                &&& final(self).errs() == old(self).errs() + e
            }),
        decreases remaining(self.stream(), self.position()), 1int,
    {
        proof {
            reveal(spec_parse_block);
            reveal(spec_parse_block_stmts);
        }
        let ghost s0 = self.stream();
        let ghost p0 = self.position();
        let ghost e0 = old(self).errs();
        let tok = self.cur_token.clone();
        let mut statements: Vec<Statement> = Vec::new();
        self.next_token();
        proof {
            assert(crate::ast::stmt_seq_model(statements@) =~= Seq::<StmtModel>::empty());
        }
        loop
            invariant
                self.wf(),
                self.stream() == s0,
                self.position() >= p0 + 1,
                s0 == old(self).stream(),
                p0 == old(self).position(),
                0 <= p0 < s0.len(),
                ({
                    let t = spec_parse_block_stmts(s0, p0 + 1);
                    let l = spec_parse_block_stmts(s0, self.position());
                    &&& t.0 == crate::ast::stmt_seq_model(statements@) + l.0
                    &&& t.1 == l.1
                    &&& e0 + t.2 == self.errs() + l.2
                }),
            ensures
                self.wf(),
                self.stream() == s0,
                ({
                    let t = spec_parse_block_stmts(s0, p0 + 1);
                    &&& t.0 == crate::ast::stmt_seq_model(statements@)
                    &&& t.1 == self.position()
                    &&& e0 + t.2 == self.errs()
                }),
            decreases remaining(s0, self.position()),
        {
            if self.cur_token_is(TokenType::RBRACE) {
                proof {
                    reveal(spec_parse_block_stmts);
                    let t = spec_parse_block_stmts(s0, p0 + 1);
                    assert(crate::ast::stmt_seq_model(statements@) + Seq::<StmtModel>::empty()
                        =~= crate::ast::stmt_seq_model(statements@));
                    assert(self.errs() + Seq::<Seq<char>>::empty() =~= self.errs());
                }
                break ;
            }
            if self.cur_token_is(TokenType::EOF) {
                proof {
                    reveal(spec_parse_block_stmts);
                    let t = spec_parse_block_stmts(s0, p0 + 1);
                    assert(crate::ast::stmt_seq_model(statements@) + Seq::<StmtModel>::empty()
                        =~= crate::ast::stmt_seq_model(statements@));
                    assert(self.errs() + Seq::<Seq<char>>::empty() =~= self.errs());
                }
                break ;
            }
            let ghost jpos = self.position();
            let ghost errs_before = self.errs();
            let st = self.parse_statement();
            let ghost stres = spec_parse_stmt(s0, jpos);
            proof {
                lemma_mono_stmt(s0, jpos);
                assert(bump(jpos, stres.1 + 1) == stres.1 + 1);
            }
            let ghost pre = statements@;
            let ghost premodel = crate::ast::stmt_seq_model(pre);
            match st {
                Some(x) => {
                    statements.push(x);
                    proof {
                        assert(statements@.drop_last() =~= pre);
                        assert(statements@.last() == x);
                        assert(crate::ast::stmt_seq_model(statements@) == premodel.push(x.model()));
                        reveal(spec_parse_block_stmts);
                        let t = spec_parse_block_stmts(s0, p0 + 1);
                        let lold = spec_parse_block_stmts(s0, jpos);
                        let lnew = spec_parse_block_stmts(s0, stres.1 + 1);
                        assert(lold.0 == seq![x.model()] + lnew.0);
                        assert(premodel + (seq![x.model()] + lnew.0) =~= premodel.push(x.model())
                            + lnew.0);
                        assert(e0 + t.2 =~= (errs_before + stres.2) + lnew.2);
                    }
                },
                None => {
                    proof {
                        reveal(spec_parse_block_stmts);
                        let t = spec_parse_block_stmts(s0, p0 + 1);
                        let lnew = spec_parse_block_stmts(s0, stres.1 + 1);
                        assert(e0 + t.2 =~= (errs_before + stres.2) + lnew.2);
                    }
                },
            }
            self.next_token();
        }
        let res = BlockStatement { token: tok, statements };
        res
    }

    /// The prefix position of an expression: dispatch on the current
    /// token's kind over the closed set of prefix rules; a kind without
    /// one records a diagnostic and yields no node.
    fn prefix_rule(&mut self) -> (res: Option<Expression>)
        requires
            old(self).wf(),
        ensures
            final(self).wf(),
            final(self).stream() == old(self).stream(),
            ({
                let (r, j, e) = spec_parse_prefix(old(self).stream(), old(self).position());
                &&& opt_expr_model(res) == r
                &&& final(self).position() == j
                &&& final(self).errs() == old(self).errs() + e
            }),
        decreases remaining(self.stream(), self.position()), 3int,
    {
        let ghost s0 = self.stream();
        let ghost p0 = self.position();
        let ghost e0 = old(self).errs();
        let k = self.cur_token.kind;
        match k {
            TokenType::IDENT => {
                let r = self.parse_identifier();
                proof {
                    assert(e0 + Seq::<Seq<char>>::empty() =~= e0);
                }
                Some(r)
            },
            TokenType::INT => {
                let r = self.parse_integer_literal();
                proof {
                    assert(e0 + Seq::<Seq<char>>::empty() =~= e0);
                }
                Some(r)
            },
            TokenType::TRUE => {
                let r = self.parse_boolean();
                proof {
                    assert(e0 + Seq::<Seq<char>>::empty() =~= e0);
                }
                Some(r)
            },
            TokenType::FALSE => {
                let r = self.parse_boolean();
                proof {
                    assert(e0 + Seq::<Seq<char>>::empty() =~= e0);
                }
                Some(r)
            },
            TokenType::BANG => self.parse_prefix_expression(),
            TokenType::MINUS => self.parse_prefix_expression(),
            TokenType::LPAREN => self.parse_grouped_expression(),
            TokenType::IF => self.parse_if_expression(),
            TokenType::FUNCTION => self.parse_function_literal(),
            _ => {
                self.no_prefix_parse_fn_error(k);
                proof {
                    assert(e0.push(no_prefix_msg(k)) =~= e0 + seq![no_prefix_msg(k)]);
                }
                None
            },
        }
    }

    /// The precedence-climbing core: a prefix rule gives the left-hand
    /// node, then, while the peek token is no statement terminator and
    /// binds tighter than `precedence`, its infix rule extends the node.
    #[verifier::rlimit(100)]
    #[verifier::spinoff_prover]
    fn parse_expression(&mut self, precedence: Precedence) -> (res: Option<Expression>)
        requires
            old(self).wf(),
        ensures
            final(self).wf(),
            final(self).stream() == old(self).stream(),
            ({
                let (r, j, e) = spec_parse_expression(
                    old(self).stream(),
                    old(self).position(),
                    prec_level(precedence),
                );
                &&& opt_expr_model(res) == r
                &&& final(self).position() == j
                &&& final(self).errs() == old(self).errs() + e
            }),
        decreases remaining(self.stream(), self.position()), 4int,
    {
        let ghost s0 = self.stream();
        let ghost p0 = self.position();
        let ghost e0 = old(self).errs();
        let ghost minp = prec_level(precedence);
        let left_opt = self.prefix_rule();
        let mut left = match left_opt {
            Some(l) => l,
            None => {
                return None;
            },
        };
        let ghost eprefix = spec_parse_prefix(s0, p0).2;
        proof {
            assert(tok_at(s0, p0).kind != TokenType::EOF);
            assert(0 <= p0 < s0.len());
            lemma_mono_prefix(s0, p0);
        }
        loop
            invariant
                self.wf(),
                self.stream() == s0,
                self.position() >= p0,
                0 <= p0 < s0.len(),
                s0 == old(self).stream(),
                p0 == old(self).position(),
                e0 == old(self).errs(),
                minp == prec_level(precedence),
                ({
                    let t = spec_parse_expression(s0, p0, minp);
                    let l = spec_parse_infix_loop(s0, self.position(), left.model(), minp);
                    &&& t.0 == l.0
                    &&& t.1 == l.1
                    &&& e0 + t.2 == self.errs() + l.2
                }),
            ensures
                self.wf(),
                self.stream() == s0,
                ({
                    let t = spec_parse_expression(s0, p0, minp);
                    &&& t.0 == Some(left.model())
                    &&& t.1 == self.position()
                    &&& e0 + t.2 == self.errs()
                }),
            decreases remaining(s0, self.position()),
        {
            if self.peek_token_is(TokenType::SEMICOLON) {
                proof {
                    assert(self.errs() + Seq::<Seq<char>>::empty() =~= self.errs());
                }
                break ;
            }
            let pv = precedence_value(precedence);
            let peekp = precedence_value(self.peek_precedence());
            if pv >= peekp {
                proof {
                    assert(self.errs() + Seq::<Seq<char>>::empty() =~= self.errs());
                }
                break ;
            }
            let k = self.peek_token.kind;
            match k {
                TokenType::PLUS | TokenType::MINUS | TokenType::SLASH | TokenType::ASTERISK
                    | TokenType::EQ | TokenType::NotEq | TokenType::LT | TokenType::GT => {
                    let ghost jpos = self.position();
                    let ghost errs_before = self.errs();
                    let ghost leftm = left.model();
                    self.next_token();
                    let nl = self.parse_infix_expression(left);
                    proof {
                        lemma_mono_expression(s0, jpos + 2, prec_of_kind(k));
                    }
                    match nl {
                        Some(x) => {
                            left = x;
                            proof {
                                let t = spec_parse_expression(s0, p0, minp);
                                let (r, m, e) = spec_parse_expression(
                                    s0,
                                    jpos + 2,
                                    prec_of_kind(k),
                                );
                                assert(bump(jpos + 1, m) == m);
                                let lold = spec_parse_infix_loop(s0, jpos, leftm, minp);
                                let lnew = spec_parse_infix_loop(
                                    s0,
                                    self.position(),
                                    left.model(),
                                    minp,
                                );
                                assert(lold.2 == e + lnew.2);
                                assert(e0 + t.2 =~= (errs_before + e) + lnew.2);
                            }
                        },
                        None => {
                            proof {
                                let t = spec_parse_expression(s0, p0, minp);
                                let (r, m, e) = spec_parse_expression(
                                    s0,
                                    jpos + 2,
                                    prec_of_kind(k),
                                );
                                assert(e0 + t.2 =~= errs_before + e);
                            }
                            return None;
                        },
                    }
                },
                TokenType::LPAREN => {
                    let ghost jpos = self.position();
                    let ghost errs_before = self.errs();
                    let ghost leftm = left.model();
                    self.next_token();
                    let nl = self.parse_call_expression(left);
                    proof {
                        lemma_mono_call(s0, jpos + 1, leftm);
                    }
                    match nl {
                        Some(x) => {
                            left = x;
                            proof {
                                let t = spec_parse_expression(s0, p0, minp);
                                let (r, m, e) = spec_parse_call(s0, jpos + 1, leftm);
                                assert(bump(jpos + 1, m) == m);
                                let lold = spec_parse_infix_loop(s0, jpos, leftm, minp);
                                let lnew = spec_parse_infix_loop(
                                    s0,
                                    self.position(),
                                    left.model(),
                                    minp,
                                );
                                assert(lold.2 == e + lnew.2);
                                assert(e0 + t.2 =~= (errs_before + e) + lnew.2);
                            }
                        },
                        None => {
                            proof {
                                let t = spec_parse_expression(s0, p0, minp);
                                let (r, m, e) = spec_parse_call(s0, jpos + 1, leftm);
                                assert(e0 + t.2 =~= errs_before + e);
                            }
                            return None;
                        },
                    }
                },
                _ => {
                    proof {
                        assert(self.errs() + Seq::<Seq<char>>::empty() =~= self.errs());
                    }
                    break ;
                },
            }
        }
        Some(left)
    }

    /// `let IDENT = expression ;` — a wrong name or a missing `=` records
    /// the expectation failure and discards the partial statement; the
    /// trailing semicolon is optional.
    #[verifier::rlimit(100)]
    #[verifier::spinoff_prover]
    fn parse_let_statement(&mut self) -> (res: Option<Statement>)
        requires
            old(self).wf(),
            tok_at(old(self).stream(), old(self).position()).kind == TokenType::LET,
        ensures
            final(self).wf(),
            final(self).stream() == old(self).stream(),
            spec_parse_stmt(old(self).stream(), old(self).position()) == spec_parse_let(
                old(self).stream(),
                old(self).position(),
            ),
            ({
                let (r, j, e) = spec_parse_let(old(self).stream(), old(self).position());
                &&& opt_stmt_model(res) == r
                &&& final(self).position() == j
                &&& final(self).errs() == old(self).errs() + e
            }),
        decreases remaining(self.stream(), self.position()), 5int,
    {
        proof {
            reveal(spec_parse_let);
            assert(spec_parse_stmt(old(self).stream(), old(self).position()) == spec_parse_let(
                old(self).stream(),
                old(self).position(),
            )) by {
                reveal(spec_parse_stmt);
            }
        }
        let ghost s0 = self.stream();
        let ghost p0 = self.position();
        let ghost e0 = old(self).errs();
        let tok = self.cur_token.clone();
        if !self.expect_peek(TokenType::IDENT) {
            proof {
                assert(e0.push(peek_error_msg(TokenType::IDENT, tok_at(s0, p0 + 1).kind)) =~= e0
                    + seq![peek_error_msg(TokenType::IDENT, tok_at(s0, p0 + 1).kind)]);
            }
            return None;
        }
        let name = Identifier {
            token: self.cur_token.clone(),
            value: self.cur_token.literal.clone(),
        };
        if !self.expect_peek(TokenType::ASSIGN) {
            proof {
                assert(e0.push(peek_error_msg(TokenType::ASSIGN, tok_at(s0, p0 + 2).kind)) =~= e0
                    + seq![peek_error_msg(TokenType::ASSIGN, tok_at(s0, p0 + 2).kind)]);
            }
            return None;
        }
        self.next_token();
        let value = match self.parse_expression(Precedence::Lowest) {
            Some(v) => v,
            None => {
                return None;
            },
        };
        if self.peek_token_is(TokenType::SEMICOLON) {
            self.next_token();
        }
        let st = Statement::Let(LetStatement { token: tok, name, value });
        proof {
            assert(opt_stmt_model(Some(st)) == Some(st.model()));
        }
        Some(st)
    }

    /// `return expression ;` — the trailing semicolon is optional.
    #[verifier::rlimit(100)]
    #[verifier::spinoff_prover]
    fn parse_return_statement(&mut self) -> (res: Option<Statement>)
        requires
            old(self).wf(),
            tok_at(old(self).stream(), old(self).position()).kind == TokenType::RETURN,
        ensures
            final(self).wf(),
            final(self).stream() == old(self).stream(),
            spec_parse_stmt(old(self).stream(), old(self).position()) == spec_parse_return(
                old(self).stream(),
                old(self).position(),
            ),
            ({
                let (r, j, e) = spec_parse_return(old(self).stream(), old(self).position());
                &&& opt_stmt_model(res) == r
                &&& final(self).position() == j
                &&& final(self).errs() == old(self).errs() + e
            }),
        decreases remaining(self.stream(), self.position()), 5int,
    {
        proof {
            reveal(spec_parse_return);
            assert(spec_parse_stmt(old(self).stream(), old(self).position()) == spec_parse_return(
                old(self).stream(),
                old(self).position(),
            )) by {
                reveal(spec_parse_stmt);
            }
        }
        let tok = self.cur_token.clone();
        self.next_token();
        let value = match self.parse_expression(Precedence::Lowest) {
            Some(v) => v,
            None => {
                return None;
            },
        };
        if self.peek_token_is(TokenType::SEMICOLON) {
            self.next_token();
        }
        let st = Statement::Return(ReturnStatement { token: tok, return_value: value });
        proof {
            assert(opt_stmt_model(Some(st)) == Some(st.model()));
        }
        Some(st)
    }

    /// A bare expression in statement position; the trailing semicolon is
    /// optional.
    #[verifier::rlimit(100)]
    #[verifier::spinoff_prover]
    fn parser_expression_statement(&mut self) -> (res: Option<Statement>)
        requires
            old(self).wf(),
            tok_at(old(self).stream(), old(self).position()).kind != TokenType::LET,
            tok_at(old(self).stream(), old(self).position()).kind != TokenType::RETURN,
        ensures
            final(self).wf(),
            final(self).stream() == old(self).stream(),
            spec_parse_stmt(old(self).stream(), old(self).position()) == spec_parse_expr_stmt(
                old(self).stream(),
                old(self).position(),
            ),
            ({
                let (r, j, e) = spec_parse_expr_stmt(old(self).stream(), old(self).position());
                &&& opt_stmt_model(res) == r
                &&& final(self).position() == j
                &&& final(self).errs() == old(self).errs() + e
            }),
        decreases remaining(self.stream(), self.position()), 5int,
    {
        proof {
            reveal(spec_parse_expr_stmt);
            assert(spec_parse_stmt(old(self).stream(), old(self).position())
                == spec_parse_expr_stmt(old(self).stream(), old(self).position())) by {
                reveal(spec_parse_stmt);
            }
        }
        let tok = self.cur_token.clone();
        let value = match self.parse_expression(Precedence::Lowest) {
            Some(v) => v,
            None => {
                return None;
            },
        };
        if self.peek_token_is(TokenType::SEMICOLON) {
            self.next_token();
        }
        let st = Statement::Expr(ExpressionStatement { token: tok, expression: value });
        proof {
            assert(opt_stmt_model(Some(st)) == Some(st.model()));
        }
        Some(st)
    }

    /// Dispatch on the statement's leading token: `let`, `return`, or an
    /// expression statement.
    #[verifier::rlimit(100)]
    pub fn parse_statement(&mut self) -> (res: Option<Statement>)
        requires
            old(self).wf(),
        ensures
            final(self).wf(),
            final(self).stream() == old(self).stream(),
            ({
                let (r, j, e) = spec_parse_stmt(old(self).stream(), old(self).position());
                &&& opt_stmt_model(res) == r
                &&& final(self).position() == j
                &&& final(self).errs() == old(self).errs() + e
            }),
        decreases remaining(self.stream(), self.position()), 6int,
    {
        let k = self.cur_token.kind;
        if k == TokenType::LET {
            self.parse_let_statement()
        } else if k == TokenType::RETURN {
            self.parse_return_statement()
        } else {
            self.parser_expression_statement()
        }
    }

    /// Parses statements until the EOF token, appending the ones that
    /// parse; a failed statement leaves its diagnostics recorded and
    /// parsing resumes at the next statement. Always returns a program —
    /// possibly partial — and never aborts.
    #[verifier::rlimit(100)]
    #[verifier::spinoff_prover]
    pub fn parse_program(&mut self) -> (res: Option<Program>)
        requires
            old(self).wf(),
        ensures
            final(self).wf(),
            final(self).stream() == old(self).stream(),
            ({
                let (pm, j, e) = spec_parse_program(old(self).stream(), old(self).position());
                &&& (match res {
                    Some(p) => p.model() == pm,
                    None => false,
                })
                &&& final(self).position() == j
                &&& final(self).errs() == old(self).errs() + e
            }),
    {
        proof {
            reveal(spec_parse_stmt_list);
        }
        let ghost s0 = self.stream();
        let ghost p0 = self.position();
        let ghost e0 = old(self).errs();
        let mut statements: Vec<Statement> = Vec::new();
        proof {
            assert(crate::ast::stmt_seq_model(statements@) =~= Seq::<StmtModel>::empty());
        }
        loop
            invariant
                self.wf(),
                self.stream() == s0,
                self.position() >= p0,
                ({
                    let t = spec_parse_stmt_list(s0, p0);
                    let l = spec_parse_stmt_list(s0, self.position());
                    &&& t.0 == crate::ast::stmt_seq_model(statements@) + l.0
                    &&& t.1 == l.1
                    &&& e0 + t.2 == self.errs() + l.2
                }),
            ensures
                self.wf(),
                self.stream() == s0,
                ({
                    let t = spec_parse_stmt_list(s0, p0);
                    &&& t.0 == crate::ast::stmt_seq_model(statements@)
                    &&& t.1 == self.position()
                    &&& e0 + t.2 == self.errs()
                }),
            decreases remaining(s0, self.position()),
        {
            if self.cur_token_is(TokenType::EOF) {
                proof {
                    reveal(spec_parse_stmt_list);
                    let t = spec_parse_stmt_list(s0, p0);
                    assert(crate::ast::stmt_seq_model(statements@) + Seq::<StmtModel>::empty()
                        =~= crate::ast::stmt_seq_model(statements@));
                    assert(self.errs() + Seq::<Seq<char>>::empty() =~= self.errs());
                }
                break ;
            }
            let ghost jpos = self.position();
            let ghost errs_before = self.errs();
            let st = self.parse_statement();
            let ghost stres = spec_parse_stmt(s0, jpos);
            proof {
                lemma_mono_stmt(s0, jpos);
                assert(bump(jpos, stres.1 + 1) == stres.1 + 1);
            }
            let ghost pre = statements@;
            let ghost premodel = crate::ast::stmt_seq_model(pre);
            match st {
                Some(x) => {
                    statements.push(x);
                    proof {
                        assert(statements@.drop_last() =~= pre);
                        assert(statements@.last() == x);
                        assert(crate::ast::stmt_seq_model(statements@) == premodel.push(x.model()));
                        reveal(spec_parse_stmt_list);
                        let t = spec_parse_stmt_list(s0, p0);
                        let lnew = spec_parse_stmt_list(s0, stres.1 + 1);
                        let lold = spec_parse_stmt_list(s0, jpos);
                        assert(lold.0 == seq![x.model()] + lnew.0);
                        assert(premodel + (seq![x.model()] + lnew.0) =~= premodel.push(x.model())
                            + lnew.0);
                        assert(e0 + t.2 =~= (errs_before + stres.2) + lnew.2);
                    }
                },
                None => {
                    proof {
                        reveal(spec_parse_stmt_list);
                        let t = spec_parse_stmt_list(s0, p0);
                        let lnew = spec_parse_stmt_list(s0, stres.1 + 1);
                        assert(e0 + t.2 =~= (errs_before + stres.2) + lnew.2);
                    }
                },
            }
            self.next_token();
        }
        Some(Program { statements })
    }
}

} // verus!
