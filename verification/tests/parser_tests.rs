use minilang::ast::{BinaryOp, ComparisonOp, Expr, Function, Parameter, Statement, Type};
use minilang::lexer::{lex, Token};
use minilang::parser::{parse, parse_program, Parser};

fn num(v: i64) -> Expr {
    Expr::Integer(v)
}

fn var(name: &str) -> Expr {
    Expr::Variable(name.to_string())
}

fn binary(op: BinaryOp, left: Expr, right: Expr) -> Expr {
    Expr::Binary { op, left: Box::new(left), right: Box::new(right) }
}

fn comparison(op: ComparisonOp, left: Expr, right: Expr) -> Expr {
    Expr::Comparison { op, left: Box::new(left), right: Box::new(right) }
}

fn parse_source(source: &str) -> Vec<Statement> {
    parse(lex(source).unwrap()).unwrap()
}

fn eval(e: &Expr) -> i64 {
    match e {
        Expr::Integer(v) => *v,
        Expr::Binary { op, left, right } => match op {
            BinaryOp::Add => eval(left) + eval(right),
            BinaryOp::Subtract => eval(left) - eval(right),
            BinaryOp::Multiply => eval(left) * eval(right),
            BinaryOp::Divide => eval(left) / eval(right),
            _ => panic!("not arithmetic"),
        },
        _ => panic!("not a constant"),
    }
}

#[test]
fn test_parse_simple_function() {
    let input = "let x: int = 3; let y: int = 2; let z: int = x + y;";
    let tokens = lex(input).unwrap();
    let stmts = parse(tokens).unwrap();
    assert_eq!(stmts.len(), 3);
}

#[test]
fn let_statements_carry_name_type_and_value() {
    let stmts = parse_source("let x: int = 3; let b: bool = true; let z: int = x + y;");
    assert_eq!(stmts, vec![
        Statement::Let { name: "x".to_string(), typ: Type::Int, value: num(3) },
        Statement::Let { name: "b".to_string(), typ: Type::Bool, value: Expr::Boolean(true) },
        Statement::Let {
            name: "z".to_string(),
            typ: Type::Int,
            value: binary(BinaryOp::Add, var("x"), var("y")),
        },
    ]);
}

#[test]
fn arithmetic_operators_share_one_tier() {
    let stmts = parse_source("1 + 2 * 3;");
    let expected = binary(BinaryOp::Multiply, binary(BinaryOp::Add, num(1), num(2)), num(3));
    assert_eq!(stmts, vec![Statement::Expression { value: expected }]);
    match &stmts[0] {
        Statement::Expression { value } => assert_eq!(eval(value), 9),
        _ => unreachable!(),
    }
}

#[test]
fn arithmetic_groups_to_the_left() {
    let stmts = parse_source("x = 10 - 4 - 3;");
    assert_eq!(stmts, vec![Statement::Assignment {
        target: "x".to_string(),
        value: binary(BinaryOp::Subtract, binary(BinaryOp::Subtract, num(10), num(4)), num(3)),
    }]);
}

#[test]
fn comparisons_chain_to_the_left() {
    let stmts = parse_source("1 < 2 == true;");
    assert_eq!(stmts, vec![Statement::Expression {
        value: comparison(
            ComparisonOp::Equal,
            comparison(ComparisonOp::Less, num(1), num(2)),
            Expr::Boolean(true),
        ),
    }]);
    let stmts = parse_source("a < b < c;");
    assert_eq!(stmts, vec![Statement::Expression {
        value: comparison(
            ComparisonOp::Less,
            comparison(ComparisonOp::Less, var("a"), var("b")),
            var("c"),
        ),
    }]);
}

#[test]
fn logical_operators_bind_loosest() {
    let stmts = parse_source("a || b && c < d + 1;");
    let sum = binary(BinaryOp::Add, var("d"), num(1));
    let less = comparison(ComparisonOp::Less, var("c"), sum);
    let and = binary(BinaryOp::And, var("b"), less);
    assert_eq!(stmts, vec![Statement::Expression { value: binary(BinaryOp::Or, var("a"), and) }]);
}

#[test]
fn calls_take_expressions_as_arguments() {
    let stmts = parse_source("f(); g(1, x + 2, h(y));");
    assert_eq!(stmts, vec![
        Statement::Expression { value: Expr::Call { callee: "f".to_string(), args: vec![] } },
        Statement::Expression {
            value: Expr::Call {
                callee: "g".to_string(),
                args: vec![
                    num(1),
                    binary(BinaryOp::Add, var("x"), num(2)),
                    Expr::Call { callee: "h".to_string(), args: vec![var("y")] },
                ],
            },
        },
    ]);
}

#[test]
fn assignment_needs_the_assign_token_behind_the_name() {
    let stmts = parse_source("x = 1; x == 1;");
    assert_eq!(stmts, vec![
        Statement::Assignment { target: "x".to_string(), value: num(1) },
        Statement::Expression { value: comparison(ComparisonOp::Equal, var("x"), num(1)) },
    ]);
}

#[test]
fn control_flow_statements_nest() {
    let stmts = parse_source("if (x < 1) { y = 1; } else { while (y) { y = y - 1; } } return y;");
    assert_eq!(stmts, vec![
        Statement::If {
            condition: comparison(ComparisonOp::Less, var("x"), num(1)),
            then_branch: vec![Statement::Assignment { target: "y".to_string(), value: num(1) }],
            else_branch: Some(vec![Statement::While {
                condition: var("y"),
                body: vec![Statement::Assignment {
                    target: "y".to_string(),
                    value: binary(BinaryOp::Subtract, var("y"), num(1)),
                }],
            }]),
        },
        Statement::Return { value: var("y") },
    ]);
    let stmts = parse_source("if (x) { }");
    assert_eq!(stmts, vec![Statement::If { condition: var("x"), then_branch: vec![], else_branch: None }]);
}

#[test]
fn functions_have_parameters_return_type_and_body() {
    let tokens = lex("fn add(a: int, b: int) -> int { return a + b; } fn main() -> void { }").unwrap();
    let functions = parse_program(tokens).unwrap();
    assert_eq!(functions, vec![
        Function {
            name: "add".to_string(),
            parameters: vec![
                Parameter { name: "a".to_string(), typ: Type::Int },
                Parameter { name: "b".to_string(), typ: Type::Int },
            ],
            return_type: Type::Int,
            body: vec![Statement::Return { value: binary(BinaryOp::Add, var("a"), var("b")) }],
        },
        Function { name: "main".to_string(), parameters: vec![], return_type: Type::Void, body: vec![] },
    ]);
}

#[test]
fn empty_token_sequences_hold_nothing() {
    assert_eq!(parse(vec![]).unwrap(), vec![]);
    assert_eq!(parse(vec![Token::Eof]).unwrap(), vec![]);
    assert_eq!(parse_program(vec![Token::Eof]).unwrap(), vec![]);
}

#[test]
fn tokens_behind_the_end_marker_are_not_read()  {
    let stmts = parse(vec![
        Token::Identifier("x".to_string()),
        Token::Semicolon,
        Token::Eof,
        Token::Semicolon,
    ])
    .unwrap();
    assert_eq!(stmts, vec![Statement::Expression { value: var("x") }]);
}

fn error_of(source: &str) -> (String, Token, usize) {
    let e = parse(lex(source).unwrap()).unwrap_err();
    (e.expected, e.found, e.position)
}

#[test]
fn errors_name_what_was_expected_and_what_was_found() {
    assert_eq!(error_of("let 1"), ("variable name".to_string(), Token::Integer(1), 1));
    assert_eq!(error_of("let x = 1;"), ("':' after variable name".to_string(), Token::Assign, 2));
    assert_eq!(error_of("let x: y = 1;"), ("type".to_string(), Token::Identifier("y".to_string()), 3));
    assert_eq!(error_of("let x: int 1;"), ("'=' after type".to_string(), Token::Integer(1), 4));
    assert_eq!(error_of("let x: int = ;"), ("expression".to_string(), Token::Semicolon, 5));
    assert_eq!(error_of("let x: int = 1"), ("';' after expression".to_string(), Token::Eof, 6));
    assert_eq!(error_of("x = 1 }"), ("';' after assignment".to_string(), Token::RightBrace, 3));
    assert_eq!(error_of("return 1"), ("';' after return value".to_string(), Token::Eof, 2));
    assert_eq!(error_of("1 + ;"), ("expression".to_string(), Token::Semicolon, 2));
    assert_eq!(error_of("; x"), ("statement".to_string(), Token::Semicolon, 0));
    assert_eq!(error_of("if x"), ("'(' after 'if'".to_string(), Token::Identifier("x".to_string()), 1));
    assert_eq!(error_of("while (x { }"), ("')' after condition".to_string(), Token::LeftBrace, 3));
    assert_eq!(error_of("if (x) y = 1;"), ("'{' before block".to_string(), Token::Identifier("y".to_string()), 4));
    assert_eq!(error_of("if (x) { y = 1;"), ("'}' after block".to_string(), Token::Eof, 9));
    assert_eq!(error_of("f(1 2);"), ("',' or ')' after argument".to_string(), Token::Integer(2), 3));
}

#[test]
fn function_errors_name_what_was_expected() {
    let error = |source: &str| {
        let e = parse_program(lex(source).unwrap()).unwrap_err();
        (e.expected, e.found, e.position)
    };
    assert_eq!(error("let x: int = 1;"), ("'fn'".to_string(), Token::Let, 0));
    assert_eq!(error("fn (") , ("function name".to_string(), Token::LeftParen, 1));
    assert_eq!(error("fn f {"), ("'(' after function name".to_string(), Token::LeftBrace, 2));
    assert_eq!(error("fn f(1"), ("parameter name".to_string(), Token::Integer(1), 3));
    assert_eq!(error("fn f(a int"), ("':' after parameter name".to_string(), Token::TypeInt, 4));
    assert_eq!(error("fn f(a: x"), ("type".to_string(), Token::Identifier("x".to_string()), 5));
    assert_eq!(error("fn f(a: int b"), ("',' or ')' after parameter".to_string(), Token::Identifier("b".to_string()), 6));
    assert_eq!(error("fn f() {"), ("'->' after parameters".to_string(), Token::LeftBrace, 4));
    assert_eq!(error("fn f() -> {"), ("type".to_string(), Token::LeftBrace, 5));
    assert_eq!(error("fn f() -> int ;"), ("'{' before block".to_string(), Token::Semicolon, 6));
}

#[test]
fn a_parser_can_be_driven_statement_by_statement() {
    let mut parser = Parser::new(lex("x = 1; y;").unwrap());
    assert!(!parser.is_at_end());
    assert_eq!(parser.parse_statement().unwrap(), Statement::Assignment {
        target: "x".to_string(),
        value: num(1),
    });
    assert_eq!(parser.parse_statement().unwrap(), Statement::Expression { value: var("y") });
    assert!(parser.is_at_end());
}

#[test]
fn trees_can_be_copied() {
    let stmts = parse_source("if (f(x, 1 + 2) < y) { z = 1; } else { while (z) { z = z - 1; } } return g();");
    let copies: Vec<Statement> = stmts.iter().map(|s| s.clone()).collect();
    assert_eq!(copies, stmts);
    let functions = parse_program(lex("fn f(a: int, b: bool) -> void { return a; }").unwrap()).unwrap();
    assert_eq!(functions[0].clone(), functions[0]);
}

#[test]
fn errors_can_be_compared_and_copied() {
    let e = parse(lex("let").unwrap()).unwrap_err();
    assert_eq!(e.clone(), e);
    assert_eq!(e.expected, "variable name");
    assert_eq!(e.found, Token::Eof);
    assert_eq!(e.position, 1);
}
