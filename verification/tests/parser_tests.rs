use rompiler::ast::{self, Expression, Function, Statement, Type};
use rompiler::lexer::Lexer;
use rompiler::parser::{ParseError, Parser};

fn parse(input: &str) -> ast::Program {
    let lexer = Lexer::new(input);
    let mut parser = Parser::new(lexer);
    parser.parse_program()
}

fn num(n: i64) -> ast::Expression {
    ast::Expression::Integer(n)
}

fn bin(left: ast::Expression, op: ast::Operator, right: ast::Expression) -> ast::Expression {
    ast::Expression::Binary(Box::new(left), op, Box::new(right))
}

fn ret(expr: ast::Expression) -> ast::Statement {
    ast::Statement::Return(expr)
}

#[test]
fn test_empty_program() {
    let p = parse("");
    assert_eq!(p.functions.len(), 0);
}

#[test]
fn test_parse_return_statement() {
    let p = parse("func main() : i32 { return 5; }");
    assert_eq!(p.functions[0].body.len(), 1);
    assert_eq!(p.functions[0].body[0], ret(num(5)));
}

#[test]
fn test_invalid_statement() {
    let p = parse("5;");
    assert_eq!(p.functions.len(), 0);
}

#[test]
fn test_parse_binary_expression() {
    let p = parse("func main() : i32 { return 5 + 10; }");
    assert_eq!(
        p.functions[0].body[0],
        ret(bin(num(5), ast::Operator::Add, num(10)))
    );
}

#[test]
fn test_operator_precedence() {
    let p = parse("func main() : i32 { return 1 + 2 * 3; }");
    assert_eq!(
        p.functions[0].body[0],
        ret(bin(
            num(1),
            ast::Operator::Add,
            bin(num(2), ast::Operator::Multiply, num(3))
        ))
    );
}

#[test]
fn test_left_associativity() {
    let p = parse("func main() : i32 { return 1 - 2 - 3; }");
    assert_eq!(
        p.functions[0].body[0],
        ret(bin(
            bin(num(1), ast::Operator::Subtract, num(2)),
            ast::Operator::Subtract,
            num(3)
        ))
    );
}

#[test]
fn test_parse_const_declaration() {
    let p = parse("func main() : i32 { const x : i64 = 5; }");
    assert_eq!(p.functions[0].body.len(), 1);
    assert_eq!(
        p.functions[0].body[0],
        Statement::Declaration {
            is_mut: false,
            name: "x".to_string(),
            declared_type: Type::I64,
            initializer: Some(ast::Expression::Integer(5))
        }
    );
}

#[test]
fn test_parse_identifier() {
    let p = parse("func main() : i32 { return x; }");
    assert_eq!(p.functions[0].body.len(), 1);
    assert_eq!(
        p.functions[0].body[0],
        Statement::Return(ast::Expression::Identifier("x".to_string()))
    );
}

#[test]
fn test_parse_assignment() {
    let p = parse("func main() : i32 { x = 10; }");
    assert_eq!(p.functions[0].body.len(), 1);
    assert_eq!(
        p.functions[0].body[0],
        Statement::Assignment {
            name: "x".to_string(),
            value: Expression::Integer(10)
        }
    );
}

#[test]
fn test_parse_float_declaration() {
    let p = parse("func main() : i32 { const pi : f64 = 3.14; }");
    assert_eq!(p.functions[0].body.len(), 1);
    assert_eq!(
        p.functions[0].body[0],
        Statement::Declaration {
            is_mut: false,
            name: "pi".to_string(),
            declared_type: Type::F64,
            initializer: Some(ast::Expression::Float("3.14".to_string()))
        }
    );
    match &p.functions[0].body[0] {
        Statement::Declaration { initializer: Some(Expression::Float(text)), .. } => {
            assert_eq!(text.parse::<f64>().unwrap(), 3.14);
        }
        other => panic!("unexpected statement {:?}", other),
    }
}

#[test]
fn test_parse_pointer_declaration() {
    let p = parse("func main() : i32 { const p : *i64 = &x; }");
    assert_eq!(p.functions[0].body.len(), 1);
    assert_eq!(
        p.functions[0].body[0],
        Statement::Declaration {
            is_mut: false,
            name: "p".to_string(),
            declared_type: ast::Type::Pointer(Box::new(ast::Type::I64)),
            initializer: Some(ast::Expression::AddressOf(Box::new(
                ast::Expression::Identifier("x".to_string())
            )))
        }
    );
}

#[test]
fn test_parse_dereference() {
    let p = parse("func main() : i32 { return *p; }");
    assert_eq!(p.functions[0].body.len(), 1);
    assert_eq!(
        p.functions[0].body[0],
        Statement::Return(ast::Expression::Dereference(Box::new(
            ast::Expression::Identifier("p".to_string())
        )))
    );
}

#[test]
fn test_parse_uninitialized() {
    let p = parse("func main() : i32 { const x: i32; }");
    assert_eq!(p.functions[0].body.len(), 1);
    assert_eq!(
        p.functions[0].body[0],
        Statement::Declaration {
            is_mut: false,
            name: "x".to_string(),
            declared_type: ast::Type::I32,
            initializer: None
        }
    );
}

#[test]
fn test_parse_array() {
    let p = parse("func main() : i32 { const x: [512]i32; }");
    assert_eq!(p.functions[0].body.len(), 1);
    assert_eq!(
        p.functions[0].body[0],
        Statement::Declaration {
            is_mut: false,
            name: "x".to_string(),
            declared_type: ast::Type::Array(Box::new(Type::I32), 512),
            initializer: None
        }
    );
}

#[test]
fn test_parse_pointer_to_array() {
    let p = parse("func main() : i32 { const x: *[512]i32; }");
    assert_eq!(p.functions[0].body.len(), 1);
    assert_eq!(
        p.functions[0].body[0],
        Statement::Declaration {
            is_mut: false,
            name: "x".to_string(),
            declared_type: Type::Pointer(Box::new(Type::Array(Box::new(Type::I32), 512))),
            initializer: None
        }
    );
}

#[test]
fn test_parse_array_assignment() {
    let p = parse("func main() : i32 { x[12] = 21; }");
    assert_eq!(p.functions[0].body.len(), 1);
    assert_eq!(
        p.functions[0].body[0],
        Statement::IndexAssignment {
            name: "x".to_string(),
            index: Expression::Integer(12),
            value: Expression::Integer(21)
        }
    );
}

#[test]
fn test_parse_array_read() {
    let p = parse("func main() : i32 { const y: u32 = x[12]; }");
    assert_eq!(p.functions[0].body.len(), 1);
    assert_eq!(
        p.functions[0].body[0],
        Statement::Declaration {
            is_mut: false,
            name: "y".to_string(),
            declared_type: Type::U32,
            initializer: Some(Expression::Index(
                Box::new(Expression::Identifier("x".to_string())),
                Box::new(Expression::Integer(12))
            ))
        }
    );
}

#[test]
fn test_parse_function_decl() {
    let p = parse("func main(x: i32) : i32 { return x; }");
    assert_eq!(p.functions.len(), 1);
    assert_eq!(
        p.functions[0],
        Function {
            name: "main".to_string(),
            parameters: vec![("x".to_string(), Type::I32)],
            return_type: Type::I32,
            body: vec![Statement::Return(Expression::Identifier("x".to_string()))]
        }
    );
}

#[test]
fn test_parse_function_call() {
    let p = parse("func main() : i32 { return add(5, 10); }");
    assert_eq!(p.functions.len(), 1);
    assert_eq!(
        p.functions[0],
        Function {
            name: "main".to_string(),
            parameters: vec![],
            return_type: Type::I32,
            body: vec![Statement::Return(Expression::Call(
                "add".to_string(),
                vec![Expression::Integer(5), Expression::Integer(10)]
            ))]
        }
    );
}

#[test]
fn higher_precedence_on_the_left_groups_left() {
    let p = parse("func f() : i64 { return 2 * 3 + 4; }");
    assert_eq!(
        p.functions[0].body[0],
        ret(bin(
            bin(num(2), ast::Operator::Multiply, num(3)),
            ast::Operator::Add,
            num(4)
        ))
    );
}

#[test]
fn equal_precedence_groups_left_for_division() {
    let p = parse("func f() : i64 { return 8 / 4 * 2; }");
    assert_eq!(
        p.functions[0].body[0],
        ret(bin(
            bin(num(8), ast::Operator::Divide, num(4)),
            ast::Operator::Multiply,
            num(2)
        ))
    );
}

#[test]
fn text_without_func_has_no_functions() {
    let p = parse("return 1; x = 2; } { ( ) 3.5 var");
    assert_eq!(p.functions.len(), 0);
}

#[test]
fn tokens_outside_functions_are_skipped() {
    let p = parse("junk func a() : i8 { } more ; func b(x: u8, y: *i16) : u64 { var z : u64 = 1; }");
    assert_eq!(p.functions.len(), 2);
    assert_eq!(p.functions[0].name, "a");
    assert_eq!(p.functions[0].return_type, Type::I8);
    assert_eq!(p.functions[0].body.len(), 0);
    assert_eq!(
        p.functions[1].parameters,
        vec![
            ("x".to_string(), Type::U8),
            ("y".to_string(), Type::Pointer(Box::new(Type::I16)))
        ]
    );
    assert_eq!(
        p.functions[1].body,
        vec![Statement::Declaration {
            is_mut: true,
            name: "z".to_string(),
            declared_type: Type::U64,
            initializer: Some(num(1))
        }]
    );
}

#[test]
fn incomplete_header_is_skipped() {
    let p = parse("func f( : i32 { return 1; } func g() : i8 { return 2; }");
    assert_eq!(p.functions.len(), 1);
    assert_eq!(p.functions[0].name, "g");
}

#[test]
fn return_without_semicolon_and_unary_operators() {
    let p = parse("func f() : i64 { return &x return **p; }");
    assert_eq!(
        p.functions[0].body,
        vec![
            ret(Expression::AddressOf(Box::new(Expression::Identifier("x".to_string())))),
            ret(Expression::Dereference(Box::new(Expression::Dereference(Box::new(
                Expression::Identifier("p".to_string())
            ))))),
        ]
    );
}

#[test]
fn call_with_nested_arguments() {
    let p = parse("func f() : i64 { return g(1 + 2, h(), a[0]); }");
    assert_eq!(
        p.functions[0].body[0],
        ret(Expression::Call(
            "g".to_string(),
            vec![
                bin(num(1), ast::Operator::Add, num(2)),
                Expression::Call("h".to_string(), vec![]),
                Expression::Index(
                    Box::new(Expression::Identifier("a".to_string())),
                    Box::new(num(0))
                ),
            ]
        ))
    );
}

fn parse_error(input: &str) -> ParseError {
    let lexer = Lexer::new(input);
    let mut parser = Parser::new(lexer);
    parser.try_parse_program().unwrap_err()
}

#[test]
fn try_parse_gives_the_program_when_parsing_succeeds() {
    let lexer = Lexer::new("func main() : i64 { return 5; }");
    let mut parser = Parser::new(lexer);
    let p = parser.try_parse_program().unwrap();
    assert_eq!(p, parse("func main() : i64 { return 5; }"));
}

#[test]
fn each_parse_error_is_reported() {
    assert_eq!(parse_error("func f(x: ) : i64 { }"), ParseError::Missing);
    assert_eq!(parse_error("func f() : bool { }"), ParseError::Missing);
    assert_eq!(parse_error("func f() : i64 { return 1 + ; }"), ParseError::Missing);
    assert_eq!(parse_error("func f() : i64 { return g(;); }"), ParseError::Missing);
    assert_eq!(parse_error("func f() : i64 { ; }"), ParseError::Missing);
    assert_eq!(parse_error("func f() : i64 { return 1; "), ParseError::Missing);
    assert_eq!(parse_error("func f() : [5 i64 { }"), ParseError::UnclosedArraySize);
    assert_eq!(parse_error("func f() : i64 { a[] = 1; }"), ParseError::ElementIndexMissing);
    assert_eq!(parse_error("func f() : i64 { a[1 = 1; }"), ParseError::ElementIndexUnclosed);
    assert_eq!(parse_error("func f() : i64 { a[1] 1; }"), ParseError::ElementEqualsMissing);
    assert_eq!(parse_error("func f() : i64 { a[1] = ; }"), ParseError::ElementValueMissing);
    assert_eq!(parse_error("func f() : i64 { a[1] = 2 }"), ParseError::ElementSemicolonMissing);
    assert_eq!(parse_error("func f() : i64 { a = 2 }"), ParseError::AssignmentSemicolonMissing);
}

#[test]
fn inner_panic_wins_over_the_statement_reason() {
    assert_eq!(parse_error("func f() : i64 { a[1 + ] = 2; }"), ParseError::Missing);
}

#[test]
fn trailing_comma_in_arguments_is_accepted() {
    let p = parse("func f() : i64 { return g(1, ); }");
    assert_eq!(
        p.functions[0].body[0],
        ret(Expression::Call("g".to_string(), vec![num(1)]))
    );
}

#[test]
fn clones_are_equal() {
    let p = parse("func f(a: [3]i64) : i64 { var x : *i64 = &a; a[1] = g(x, *x, 2.5); var y : i64 = 1 / 3; return a[1]; }");
    for s in &p.functions[0].body {
        assert_eq!(s.clone(), *s);
    }
    let e = bin(num(1), ast::Operator::Subtract, Expression::Call("h".to_string(), vec![num(2)]));
    assert_eq!(e.clone(), e);
}
