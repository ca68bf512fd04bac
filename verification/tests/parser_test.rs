use monkey::Expression;
use monkey::Lexer;
use monkey::Node;
use monkey::Parser;
use monkey::Statement;

fn check_parser_error(p: Parser) {
    let errors = p.errors();

    if errors.is_empty() {
        return;
    }
    for msg in errors {
        panic!("parser error: {:?}", msg);
    }
    panic!("parser has {} errors", errors.len());
}

fn test_let_statement(s: &Statement, name: String) -> bool {
    if s.token_literal() != "let" {
        println!("s.TokenLiteral not 'let'. got={}", s.token_literal());
        return false;
    }
    let let_stmt = match s {
        Statement::Let(stmt) => stmt,
        _ => {
            println!("s not LetStatement.");
            return false;
        }
    };

    if let_stmt.name.value != name {
        println!(
            "letStmt.Name.Value not '{}'. got={}",
            name, let_stmt.name.value
        );
        return false;
    }

    if let_stmt.name.token_literal() != name {
        println!(
            "letStmt.Name.TokenLiteral() not '{}'. got={}",
            name,
            let_stmt.name.token_literal()
        );
        return false;
    }

    true
}

fn test_indent_literal(il: &Expression, value: i64) {
    let integ = match il {
        Expression::Int(x) => x,
        _ => panic!("il not IntegerLiteral"),
    };

    assert_eq!(
        integ.value, value,
        "integ.Value not {}. got={}",
        value, integ.value
    );
    assert_eq!(
        integ.token_literal(),
        value.to_string(),
        "integ.TokenLiteral not {}. got={}",
        value,
        integ.token_literal()
    );
}

fn parse(input: &str) -> monkey::Program {
    let l = Lexer::new(input.to_string());
    let mut p = Parser::new(l);
    let program = p.parse_program().expect("parse_program None");
    check_parser_error(p);
    program
}

#[test]
fn test_let_statements() {
    let input = "let x = 5;\
        let y = 10;\
        let foo = 88;"
        .to_string();

    let l = Lexer::new(input);
    let mut p = Parser::new(l);

    let program = p.parse_program();
    check_parser_error(p);

    if let Some(prog) = program {
        let statelen = prog.statements.len();
        if statelen != 3 {
            panic!("hope 3 statements ,get {}", statelen)
        }

        let tests = vec!["x", "y", "foo"];
        for (key, test) in tests.iter().enumerate() {
            let stmt = &prog.statements[key];
            assert!(test_let_statement(stmt, test.to_string()));
        }
    } else {
        panic!("parse_program None");
    }
}

#[test]
fn test_return_statements() {
    let input = "return 5;\
        return 10;\
        return 993322;"
        .to_string();

    let l = Lexer::new(input);
    let mut p = Parser::new(l);

    let program = p.parse_program();
    check_parser_error(p);

    if let Some(prog) = program {
        assert_eq!(
            prog.statements.len(),
            3,
            "prog.Statements does not contain 3 statements. got={}",
            prog.statements.len()
        );

        for stmt in &prog.statements {
            let return_stmt = match stmt {
                Statement::Return(r) => r,
                _ => panic!("stmt not ReturnStatement"),
            };
            assert_eq!(
                return_stmt.token_literal(),
                "return",
                "returnStmt.TokenLiteral not 'return', got {:?}",
                return_stmt.token_literal()
            );
        }
    }
}

#[test]
fn test_indent_expression() {
    let input = "foobar;".to_string();

    let l = Lexer::new(input);
    let mut p = Parser::new(l);

    let program = p.parse_program();
    check_parser_error(p);

    if let Some(prog) = program {
        assert_eq!(
            prog.statements.len(),
            1,
            "prog.Statements does not contain 1 statements. got={}",
            prog.statements.len()
        );
        for stmt in &prog.statements {
            let ident_stmt = match stmt {
                Statement::Expr(e) => e,
                _ => panic!("stmt not ExpressionStatement"),
            };

            let ident = match &ident_stmt.expression {
                Expression::Ident(i) => i,
                _ => panic!("ident_stmt not Identifier"),
            };

            assert_eq!(ident.token_literal(), "foobar");
            assert_eq!(ident.value, "foobar");
        }
    }
}

#[test]
fn test_integet_expression() {
    let input = "5;".to_string();

    let l = Lexer::new(input);
    let mut p = Parser::new(l);

    let program = p.parse_program();
    check_parser_error(p);

    if let Some(prog) = program {
        assert_eq!(
            prog.statements.len(),
            1,
            "prog.Statements does not contain 1 statements. got={}",
            prog.statements.len()
        );
        for stmt in &prog.statements {
            let int_stmt = match stmt {
                Statement::Expr(e) => match &e.expression {
                    Expression::Int(x) => x,
                    _ => panic!("int_stmt not IntegerLiteral"),
                },
                _ => panic!("stmt not ExpressionStatement"),
            };

            assert_eq!(int_stmt.token_literal(), "5");
            assert_eq!(int_stmt.value, 5);
        }
    }
}

#[test]
fn test_prefix_expressions() {
    let prefix_tests = vec![("!5;", "!", 5), ("-15;", "-", 15)];

    for tt in prefix_tests {
        let l = Lexer::new(tt.0.to_string());
        let mut p = Parser::new(l);

        let program = p.parse_program();
        check_parser_error(p);

        if let Some(prog) = program {
            assert_eq!(
                prog.statements.len(),
                1,
                "prog.Statements does not contain 1 statements. got={}",
                prog.statements.len()
            );
            for stmt in &prog.statements {
                let prefix_stmt = match stmt {
                    Statement::Expr(e) => match &e.expression {
                        Expression::Prefix(px) => px,
                        _ => panic!("prefix_stmt not PrefixExpression"),
                    },
                    _ => panic!("stmt not ExpressionStatement"),
                };

                assert_eq!(prefix_stmt.operator, tt.1);
                test_indent_literal(&prefix_stmt.right, tt.2);
            }
        }
    }
}

// Precedence and left-associativity, read off the canonical rendering.
#[test]
fn test_operator_precedence_rendering() {
    let cases = vec![
        ("-a * b", "((-a) * b)"),
        ("a + b * c", "(a + (b * c))"),
        ("a + b + c", "((a + b) + c)"),
        ("a + b - c", "((a + b) - c)"),
        ("a * b * c", "((a * b) * c)"),
        ("a * b / c", "((a * b) / c)"),
        ("a + b / c", "(a + (b / c))"),
        ("5 > 4 == 3 < 4", "((5 > 4) == (3 < 4))"),
        ("3 + 4 * 5 == 3 * 1 + 4 * 5", "((3 + (4 * 5)) == ((3 * 1) + (4 * 5)))"),
        ("!true", "(!true)"),
        ("1 + (2 + 3) + 4", "((1 + (2 + 3)) + 4)"),
        ("(5 + 5) * 2", "((5 + 5) * 2)"),
        ("-(5 + 5)", "(-(5 + 5))"),
    ];
    for (input, expected) in cases {
        let program = parse(input);
        assert_eq!(program.render(), expected, "input {:?}", input);
    }
}

// Rendering a parsed tree and re-parsing the rendered text renders the
// same: the canonical form is a stable round trip. Blocks are rendered
// without their braces, so `if` and `fn` are outside this property.
#[test]
fn test_render_round_trip() {
    let inputs = vec![
        "-a * b",
        "a + b * c - d / e",
        "3 < 5 == true",
        "let x = 1 + 2 * 3;",
        "return 5 + 5;",
        "add(1, 2 * 3, 4 + 5)",
    ];
    for input in inputs {
        let first = parse(input).render();
        let second = parse(&first).render();
        assert_eq!(first, second, "input {:?}", input);
    }
}

// A `let` without `=` appends no let-statement and records an expectation
// failure that names the ASSIGN kind.
#[test]
fn test_let_missing_assign() {
    let l = Lexer::new("let x 5;".to_string());
    let mut p = Parser::new(l);
    let program = p.parse_program().expect("parse_program None");
    let lets = program
        .statements
        .iter()
        .filter(|s| matches!(s, Statement::Let(_)))
        .count();
    assert_eq!(lets, 0);
    let errors = p.errors();
    assert!(!errors.is_empty());
    assert_eq!(
        errors[0],
        "expected next token to be ASSIGN, got INT instead"
    );
}

// A token with no prefix rule records a diagnostic and yields no node.
#[test]
fn test_no_prefix_rule_error() {
    let l = Lexer::new("+".to_string());
    let mut p = Parser::new(l);
    let program = p.parse_program().expect("parse_program None");
    assert_eq!(program.statements.len(), 0);
    let errors = p.errors();
    assert_eq!(errors.len(), 1);
    assert_eq!(errors[0], "no prefix parse function for PLUS found");
}

// Boolean literals parse to their values.
#[test]
fn test_boolean_literals() {
    let program = parse("true; false;");
    assert_eq!(program.statements.len(), 2);
    match &program.statements[0] {
        Statement::Expr(e) => match &e.expression {
            Expression::Bool(b) => assert!(b.value),
            _ => panic!("not a boolean literal"),
        },
        _ => panic!("not an expression statement"),
    }
    match &program.statements[1] {
        Statement::Expr(e) => match &e.expression {
            Expression::Bool(b) => assert!(!b.value),
            _ => panic!("not a boolean literal"),
        },
        _ => panic!("not an expression statement"),
    }
}

// An integer too large for an i64 parses with value zero — overflow
// checking is a stated non-goal — and keeps its literal text.
#[test]
fn test_integer_overflow_yields_zero() {
    let program = parse("99999999999999999999;");
    match &program.statements[0] {
        Statement::Expr(e) => match &e.expression {
            Expression::Int(x) => {
                assert_eq!(x.value, 0);
                assert_eq!(x.token_literal(), "99999999999999999999");
            }
            _ => panic!("not an integer literal"),
        },
        _ => panic!("not an expression statement"),
    }
}

// An if-expression with an else-branch.
#[test]
fn test_if_else_expression() {
    let program = parse("if (x < y) { x } else { y }");
    assert_eq!(program.statements.len(), 1);
    match &program.statements[0] {
        Statement::Expr(e) => match &e.expression {
            Expression::If(x) => {
                assert_eq!(x.condition.render(), "(x < y)");
                assert_eq!(x.consequence.statements.len(), 1);
                assert!(x.alternative.is_some());
            }
            _ => panic!("not an if-expression"),
        },
        _ => panic!("not an expression statement"),
    }
}

// A function literal with its parameter list and body.
#[test]
fn test_function_literal() {
    let program = parse("fn(x, y) { x + y; }");
    match &program.statements[0] {
        Statement::Expr(e) => match &e.expression {
            Expression::Function(f) => {
                assert_eq!(f.parameters.len(), 2);
                assert_eq!(f.parameters[0].value, "x");
                assert_eq!(f.parameters[1].value, "y");
                assert_eq!(f.body.statements.len(), 1);
            }
            _ => panic!("not a function literal"),
        },
        _ => panic!("not an expression statement"),
    }
    assert_eq!(parse("fn() {}").render(), "fn() ");
}

// A call expression: callee applied to a comma-separated argument list.
#[test]
fn test_call_expression() {
    let program = parse("add(1, 2 * 3, 4 + 5);");
    match &program.statements[0] {
        Statement::Expr(e) => match &e.expression {
            Expression::Call(c) => {
                assert_eq!(c.callee.render(), "add");
                assert_eq!(c.arguments.len(), 3);
                assert_eq!(c.arguments[1].render(), "(2 * 3)");
            }
            _ => panic!("not a call expression"),
        },
        _ => panic!("not an expression statement"),
    }
    assert_eq!(program.render(), "add(1, (2 * 3), (4 + 5))");
}

// A let-statement keeps its value expression; rendering shows it.
#[test]
fn test_let_with_expression_value() {
    let program = parse("let x = 1 + 2;");
    assert_eq!(program.render(), "let x = (1 + 2);");
    let program = parse("return 2 * 3;");
    assert_eq!(program.render(), "return (2 * 3);");
}

// Whitespace plus a single integer literal parses to exactly one
// expression statement whose rendering reproduces the digits.
#[test]
fn test_single_integer_program() {
    for input in ["5", "  5", "5  ", "\t\n 42 \r\n", "007"] {
        let program = parse(input);
        assert_eq!(program.statements.len(), 1);
        match &program.statements[0] {
            Statement::Expr(e) => match &e.expression {
                Expression::Int(x) => {
                    assert_eq!(x.token_literal(), input.trim());
                    assert_eq!(x.value, input.trim().parse::<i64>().unwrap());
                }
                _ => panic!("not an integer literal"),
            },
            _ => panic!("not an expression statement"),
        }
        assert_eq!(program.render(), input.trim());
    }
}
