use tapegen::ast::{Expr, Statement};
use tapegen::compiler::{compile, Compiler};

fn error_of(src: &str) -> String {
    match compile(src) {
        Ok(code) => panic!("compiled to {}", code),
        Err(message) => message,
    }
}

#[test]
fn undefined_variable_in_expression() {
    assert_eq!(error_of("let x = y;"), "Variable y is not defined");
}

#[test]
fn undefined_variable_in_assignment() {
    assert_eq!(error_of("x = 1;"), "Variable x is not defined");
}

#[test]
fn duplicate_definition() {
    assert_eq!(error_of("let x = 1; let x = 2;"), "Variable x is already defined");
}

#[test]
fn inner_block_cannot_shadow() {
    assert_eq!(error_of("let x = 1; { let x = 2; }"), "Variable x is already defined");
}

#[test]
fn unsupported_operators() {
    assert_eq!(error_of("let x = 6 / 2;"), "Division is not yet supported");
    assert_eq!(error_of("let x = 6 % 2;"), "Modulo is not yet supported");
    assert_eq!(error_of("let x = 6 == 2;"), "Equality is not yet supported");
    assert_eq!(error_of("let x = 6 != 2;"), "Inequality is not yet supported");
    assert_eq!(error_of("let x = 6 < 2;"), "Less than is not yet supported");
    assert_eq!(error_of("let x = 6 <= 2;"), "Less than or equal is not yet supported");
    assert_eq!(error_of("let x = 6 > 2;"), "Greater than is not yet supported");
    assert_eq!(error_of("let x = 6 >= 2;"), "Greater than or equal is not yet supported");
    assert_eq!(error_of("let x = 6 & 2;"), "Logical and is not yet supported");
    assert_eq!(error_of("let x = 6 | 2;"), "Logical or is not yet supported");
}

#[test]
fn unsupported_expressions() {
    assert_eq!(error_of("let x = -1;"), "Unary operators are not yet supported");
    assert_eq!(error_of("let x = !1;"), "Unary operators are not yet supported");
    assert_eq!(error_of("let x = f(1, 2);"), "Function f is not defined");
    assert_eq!(error_of("let x = f();"), "Function f is not defined");
    assert_eq!(error_of("let x = \"s\";"), "Strings are not yet supported");
}

#[test]
fn unsupported_statements() {
    assert_eq!(error_of("while 1 { }"), "While statements are not yet supported");
    assert_eq!(error_of("print(1);"), "Print statements that doesn't use string literals are not yet supported");
    assert_eq!(error_of("return 1;"), "Return statements not implemented");
    assert_eq!(error_of("return;"), "Return statements not implemented");
    assert_eq!(error_of("let x = 1; if x return;"), "Return statements not implemented");
    assert_eq!(error_of("{ let x = 1; { return x; } }"), "Return statements not implemented");
    assert_eq!(error_of("fn f(a, b) {{ }"), "Function declarations are not yet supported");
}

#[test]
fn statements_lowered_on_their_own_report_what_was_not_laid_out() {
    let mut c = Compiler::new();
    let print = Statement::Print(Expr::String("a".to_string()));
    assert_eq!(c.evaluate_statement(&print), Err("String literal a is not laid out".to_string()));
    let mut c = Compiler::new();
    assert_eq!(
        c.evaluate_statement(&Statement::Return(None)),
        Err("Return statements are not yet supported".to_string())
    );
}

#[test]
fn failed_steps_leave_the_generator_as_it_was() {
    let mut c = Compiler::new();
    c.alloc_var("x").unwrap();
    let code = c.code();
    assert_eq!(c.assignment("y", &Expr::Number(1)), Err("Variable y is not defined".to_string()));
    assert_eq!(c.alloc_var("x"), Err("Variable x is already defined".to_string()));
    assert_eq!(
        c.variable_definition("x", Some(&Expr::Number(1))),
        Err("Variable x is already defined".to_string())
    );
    assert_eq!(c.code(), code);
    assert_eq!(c.top(), 1);
    assert_eq!(c.head(), 0);
}

#[test]
fn parse_errors_name_the_tokens() {
    assert_eq!(error_of("let x = 1"), "Expected Semicolon, found Eof");
    assert_eq!(error_of("let 1;"), "Expected variable name\nExpected statement, found Semicolon");
    assert_eq!(error_of("let x = ;"), "Expected expression");
    assert_eq!(error_of(")"), "Expected statement, found RightParen");
    assert_eq!(error_of("x 1;"), "Expected Equal, found Number(1)\nExpected statement, found Number(1)\nExpected statement, found Semicolon");
    assert_eq!(error_of("print \"a\";"), "Expected LeftParen, found String(\"a\")\nExpected statement, found String(\"a\")\nExpected statement, found Semicolon");
    assert_eq!(error_of("fn (a) { }"), "Expected function name\nExpected Equal, found RightParen\nExpected statement, found RightParen");
    assert_eq!(error_of("fn f(1) { }"), "Expected parameter name\nExpected statement, found RightParen");
}

#[test]
fn errors_inside_a_block_drop_the_statement() {
    let code = compile("{ let = 1; let y = 2; }").unwrap();
    assert_eq!(code, compile("{ 1; let y = 2; }").unwrap());
}

#[test]
fn tape_limit_is_reported() {
    let limit = isize::MAX as usize;
    let mut c = Compiler::new();
    c.malloc(limit);
    assert_eq!(c.alloc_var("x"), Err("Out of tape cells".to_string()));
    let mut c = Compiler::new();
    c.malloc(limit - 1);
    assert_eq!(c.add_string_literal("a"), Err("Out of tape cells".to_string()));
}
