use tapegen::ast::{BinaryOp, Expr, Program, Statement, UnaryOp};
use tapegen::parser::{lines, parse, Parser};
use tapegen::tokenizer::{tokenize, Token};

fn parsed(src: &str) -> Result<Program, String> {
    let tokens: Vec<Token> = tokenize(src).collect();
    parse(&tokens)
}

fn text(p: &Result<Program, String>) -> String {
    format!("{:?}", p)
}

fn num(n: u8) -> Box<Expr> {
    Box::new(Expr::Number(n))
}

#[test]
fn empty_program() {
    assert_eq!(text(&parsed("")), text(&Ok(Program::new(vec![]))));
    assert_eq!(text(&parsed("// nothing\n")), text(&Ok(Program::new(vec![]))));
}

#[test]
fn definition_with_and_without_initializer() {
    let expected = Program::new(vec![
        Statement::VariableDefinition { name: "x".to_string(), initializer: None },
        Statement::VariableDefinition { name: "y".to_string(), initializer: Some(Expr::Number(2)) },
    ]);
    assert_eq!(text(&parsed("let x; let y = 2;")), text(&Ok(expected)));
}

#[test]
fn binary_expressions_nest_to_the_right() {
    let expected = Program::new(vec![Statement::Assignment {
        name: "x".to_string(),
        value: Expr::Binary {
            lhs: num(1),
            op: BinaryOp::Mul,
            rhs: Box::new(Expr::Binary { lhs: num(2), op: BinaryOp::Add, rhs: num(3) }),
        },
    }]);
    assert_eq!(text(&parsed("x = 1 * 2 + 3;")), text(&Ok(expected)));
}

#[test]
fn parentheses_group() {
    let expected = Program::new(vec![Statement::Assignment {
        name: "x".to_string(),
        value: Expr::Binary {
            lhs: Box::new(Expr::Binary { lhs: num(1), op: BinaryOp::Sub, rhs: num(2) }),
            op: BinaryOp::Div,
            rhs: num(3),
        },
    }]);
    assert_eq!(text(&parsed("x = (1 - 2) / 3;")), text(&Ok(expected)));
}

#[test]
fn every_binary_operator() {
    let ops = [
        ("+", BinaryOp::Add),
        ("-", BinaryOp::Sub),
        ("*", BinaryOp::Mul),
        ("/", BinaryOp::Div),
        ("%", BinaryOp::Mod),
        ("==", BinaryOp::Eq),
        ("!=", BinaryOp::Neq),
        ("<", BinaryOp::Lt),
        ("<=", BinaryOp::Leq),
        (">", BinaryOp::Gt),
        (">=", BinaryOp::Geq),
        ("&", BinaryOp::And),
        ("|", BinaryOp::Or),
    ];
    for (symbol, op) in ops {
        let expected = Program::new(vec![Statement::Print(Expr::Binary {
            lhs: num(1),
            op,
            rhs: num(2),
        })]);
        assert_eq!(text(&parsed(&format!("print(1 {} 2);", symbol))), text(&Ok(expected)));
    }
}

#[test]
fn unary_operators_take_the_whole_rest() {
    let expected = Program::new(vec![Statement::Return(Some(Expr::Unary {
        op: UnaryOp::Neg,
        rhs: Box::new(Expr::Binary {
            lhs: Box::new(Expr::Identifier("a".to_string())),
            op: BinaryOp::Add,
            rhs: Box::new(Expr::Unary { op: UnaryOp::Not, rhs: num(1) }),
        }),
    }))]);
    assert_eq!(text(&parsed("return -a + !1;")), text(&Ok(expected)));
}

#[test]
fn calls_with_arguments() {
    let expected = Program::new(vec![
        Statement::Print(Expr::Call {
            callee: Box::new(Expr::Identifier("f".to_string())),
            args: vec![],
        }),
        Statement::Print(Expr::Call {
            callee: Box::new(Expr::Identifier("g".to_string())),
            args: vec![
                Expr::Number(1),
                Expr::Binary {
                    lhs: Box::new(Expr::String("s".to_string())),
                    op: BinaryOp::Add,
                    rhs: num(2),
                },
            ],
        }),
    ]);
    assert_eq!(text(&parsed("print(f()); print(g(1, \"s\" + 2));")), text(&Ok(expected)));
}

#[test]
fn blocks_ifs_and_whiles() {
    let expected = Program::new(vec![
        Statement::If {
            condition: Expr::Identifier("a".to_string()),
            then_branch: Box::new(Statement::Block(vec![Statement::Return(None)])),
            else_branch: Some(Box::new(Statement::While {
                condition: Expr::Number(1),
                body: Box::new(Statement::Block(vec![])),
            })),
        },
        Statement::If {
            condition: Expr::Number(0),
            then_branch: Box::new(Statement::Return(None)),
            else_branch: None,
        },
    ]);
    assert_eq!(
        text(&parsed("if a { return; } else while 1 { } if 0 return;")),
        text(&Ok(expected))
    );
}

#[test]
fn function_definition_needs_two_braces() {
    let expected = Program::new(vec![Statement::FunctionDefinition {
        name: "f".to_string(),
        params: vec!["a".to_string(), "b".to_string()],
        body: Box::new(Statement::Block(vec![Statement::Return(Some(Expr::Identifier(
            "a".to_string(),
        )))])),
    }]);
    assert_eq!(text(&parsed("fn f(a, b) {{ return a; }")), text(&Ok(expected)));
    assert_eq!(
        text(&parsed("fn f() { }")),
        text(&Err::<Program, String>(
            "Expected LeftBrace, found RightBrace\nExpected statement, found RightBrace".to_string()
        ))
    );
}

#[test]
fn comments_are_skipped() {
    assert_eq!(text(&parsed("let // name\n x; // done")), text(&parsed("let x;")));
}

#[test]
fn every_failed_statement_is_reported() {
    assert_eq!(
        text(&parsed("let; let x; 7")),
        text(&Err::<Program, String>(
            "Expected variable name\nExpected statement, found Number(7)".to_string()
        ))
    );
}

#[test]
fn error_tokens_do_not_parse() {
    assert_eq!(
        text(&parsed("let x = 256;")),
        text(&Err::<Program, String>(
            "Expected expression\nExpected statement, found Semicolon".to_string()
        ))
    );
}

#[test]
fn unclosed_block_is_reported() {
    assert_eq!(
        text(&parsed("{ let x;")),
        text(&Err::<Program, String>("Expected RightBrace, found Eof".to_string()))
    );
}

#[test]
fn parser_steps() {
    let tokens: Vec<Token> = tokenize("a // c\n = 1;").collect();
    let mut p = Parser::new(&tokens);
    assert_eq!(p.peek(), Token::Identifier("a".to_string()));
    assert!(!p.is_at_end());
    assert_eq!(p.consume(), Token::Identifier("a".to_string()));
    assert_eq!(p.expect(Token::Semicolon), Err("Expected Semicolon, found Equal".to_string()));
    assert_eq!(p.expect(Token::Equal), Ok(Token::Equal));
    assert_eq!(format!("{:?}", p.expression()), "Ok(Number(1))");
    assert_eq!(p.consume(), Token::Semicolon);
    assert!(p.is_at_end());
    assert_eq!(p.consume(), Token::Eof);
    assert_eq!(p.consume(), Token::Eof);
    assert_eq!(p.peek(), Token::Eof);
}

#[test]
fn precedence_table() {
    assert_eq!(BinaryOp::Or.precedence(), 1);
    assert_eq!(BinaryOp::And.precedence(), 2);
    assert_eq!(BinaryOp::Eq.precedence(), 3);
    assert_eq!(BinaryOp::Neq.precedence(), 3);
    assert_eq!(BinaryOp::Lt.precedence(), 4);
    assert_eq!(BinaryOp::Leq.precedence(), 4);
    assert_eq!(BinaryOp::Gt.precedence(), 4);
    assert_eq!(BinaryOp::Geq.precedence(), 4);
    assert_eq!(BinaryOp::Add.precedence(), 5);
    assert_eq!(BinaryOp::Sub.precedence(), 5);
    assert_eq!(BinaryOp::Mul.precedence(), 6);
    assert_eq!(BinaryOp::Div.precedence(), 6);
    assert_eq!(BinaryOp::Mod.precedence(), 6);
}

#[test]
fn operators_from_tokens() {
    assert_eq!(BinaryOp::from_token(&Token::Plus), BinaryOp::Add);
    assert_eq!(BinaryOp::from_token(&Token::Or), BinaryOp::Or);
    assert_eq!(BinaryOp::from_token(&Token::LessEqual), BinaryOp::Leq);
    assert_eq!(UnaryOp::from_token(&Token::Minus), UnaryOp::Neg);
    assert_eq!(UnaryOp::from_token(&Token::Not), UnaryOp::Not);
}

#[test]
fn lines_joins_with_line_feeds() {
    assert_eq!(lines(&vec![]), "");
    assert_eq!(lines(&vec!["a".to_string()]), "a");
    assert_eq!(lines(&vec!["a".to_string(), "".to_string(), "b".to_string()]), "a\n\nb");
}
