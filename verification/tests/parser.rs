use monkey::lexer::lexer;
use monkey::parser::{parse, Expression, Operator, ParseError, Prefix, Statement};

#[test]
fn parse_basic_let_statement() {
    let input = "let var_name = 8;";

    let mut tokens = lexer(input);
    let statements = parse(&mut tokens).unwrap();

    let expected = vec![Statement::Let {
        name: "var_name".to_owned(),
        value: Expression::Int(8),
    }];

    assert_eq!(expected, statements);
}

#[test]
fn parse_basic_return_statement() {
    let input = "return 5;";

    let mut tokens = lexer(input);
    let statements = parse(&mut tokens).unwrap();

    let expected = vec![Statement::Return { value: Expression::Int(5) }];

    assert_eq!(expected, statements);
}

#[test]
fn parse_basic_expression() {
    let input = "2 + 5 + 8";

    let mut tokens = lexer(input);
    let statements = parse(&mut tokens).unwrap();

    let expected = vec![Statement::ExpressionStatement(Expression::Infix {
        left: Box::new(Expression::Infix {
            left: Box::new(Expression::Int(2)),
            op: Operator::PLUS,
            right: Box::new(Expression::Int(5)),
        }),
        op: Operator::PLUS,
        right: Box::new(Expression::Int(8)),
    })];

    assert_eq!(expected, statements);
}

#[test]
fn parse_parenthesised_expression() {
    let input = "2 + (5 + 8)";

    let mut tokens = lexer(input);
    let statements = parse(&mut tokens).unwrap();

    let expected = vec![Statement::ExpressionStatement(Expression::Infix {
        left: Box::new(Expression::Int(2)),
        op: Operator::PLUS,
        right: Box::new(Expression::Infix {
            left: Box::new(Expression::Int(5)),
            op: Operator::PLUS,
            right: Box::new(Expression::Int(8)),
        }),
    })];

    assert_eq!(expected, statements);
}

#[test]
fn parse_operators() {
    let input = "1 + 2 * 3";

    let mut tokens = lexer(input);
    let statements = parse(&mut tokens).unwrap();

    let expected = vec![Statement::ExpressionStatement(Expression::Infix {
        left: Box::new(Expression::Int(1)),
        op: Operator::PLUS,
        right: Box::new(Expression::Infix {
            left: Box::new(Expression::Int(2)),
            op: Operator::MULTIPLY,
            right: Box::new(Expression::Int(3)),
        }),
    })];

    assert_eq!(expected, statements);
}

#[test]
fn test_if_statement() {
    let input = "if (7) { 1 + 3 } else { 8 }";

    let mut tokens = lexer(input);
    let statements = parse(&mut tokens).unwrap();

    let expected = vec![Statement::ExpressionStatement(Expression::If {
        condition: Box::new(Expression::Int(7)),
        consequence: vec![Statement::ExpressionStatement(Expression::Infix {
            left: Box::new(Expression::Int(1)),
            op: Operator::PLUS,
            right: Box::new(Expression::Int(3)),
        })],
        alternative: vec![Statement::ExpressionStatement(Expression::Int(8))],
    })];

    assert_eq!(expected, statements);
}

#[test]
fn parser_test_prefixes() {
    let input = "let a = -33;
        let b = !true;
        let c = -1 + 2 + 3;";

    let mut tokens = lexer(input);
    let statements = parse(&mut tokens).unwrap();

    let expected = vec![
        Statement::Let {
            name: "a".to_owned(),
            value: Expression::Prefix {
                prefix: Prefix::MINUS,
                value: Box::new(Expression::Int(33)),
            },
        },
        Statement::Let {
            name: "b".to_owned(),
            value: Expression::Prefix {
                prefix: Prefix::BANG,
                value: Box::new(Expression::Boolean(true)),
            },
        },
        Statement::Let {
            name: "c".to_owned(),
            value: Expression::Infix {
                left: Box::new(Expression::Infix {
                    left: Box::new(Expression::Prefix {
                        prefix: Prefix::MINUS,
                        value: Box::new(Expression::Int(1)),
                    }),
                    op: Operator::PLUS,
                    right: Box::new(Expression::Int(2)),
                }),
                op: Operator::PLUS,
                right: Box::new(Expression::Int(3)),
            },
        },
    ];

    assert_eq!(expected, statements);
}

#[test]
fn test_fn_literal() {
    let input = "fn(a, b) {
            return 23;
        }";

    let mut tokens = lexer(input);
    let statements = parse(&mut tokens).unwrap();

    let expected = vec![Statement::ExpressionStatement(Expression::FnLiteral {
        parameters: vec!["a".to_owned(), "b".to_owned()],
        body: vec![Statement::Return { value: Expression::Int(23) }],
    })];

    assert_eq!(expected, statements);
}

#[test]
fn test_function_call() {
    let input = "add(2, 7)";

    let mut tokens = lexer(input);
    let statements = parse(&mut tokens).unwrap();

    let expected = vec![Statement::ExpressionStatement(Expression::FnCall {
        function: Box::new(Expression::Ident("add".to_owned())),
        args: vec![Expression::Int(2), Expression::Int(7)],
    })];

    assert_eq!(expected, statements);
}

#[test]
fn test_mock_program() {
    let input = "let x = 7;
        let hello = true;
        let name = 'spyro';

        if(hello) {
            let y = x;
            11
        } else {
            2 + 3 * 9
        }
        
        return 1;";

    let mut tokens = lexer(input);
    let statements = parse(&mut tokens).unwrap();

    let expected = vec![
        Statement::Let { name: "x".to_owned(), value: Expression::Int(7) },
        Statement::Let { name: "hello".to_owned(), value: Expression::Boolean(true) },
        Statement::Let {
            name: "name".to_owned(),
            value: Expression::String("spyro".to_owned()),
        },
        Statement::ExpressionStatement(Expression::If {
            condition: Box::new(Expression::Ident("hello".to_owned())),
            consequence: vec![
                Statement::Let { name: "y".to_owned(), value: Expression::Ident("x".to_owned()) },
                Statement::ExpressionStatement(Expression::Int(11)),
            ],
            alternative: vec![Statement::ExpressionStatement(Expression::Infix {
                left: Box::new(Expression::Int(2)),
                op: Operator::PLUS,
                right: Box::new(Expression::Infix {
                    left: Box::new(Expression::Int(3)),
                    op: Operator::MULTIPLY,
                    right: Box::new(Expression::Int(9)),
                }),
            })],
        }),
        Statement::Return { value: Expression::Int(1) },
    ];

    assert_eq!(expected, statements);
}

#[test]
fn missing_identifier_in_let_is_an_error() {
    let mut tokens = lexer("let = 5;");
    assert_eq!(Err(ParseError::ExpectedIdent), parse(&mut tokens));
}

#[test]
fn missing_assign_in_let_is_an_error() {
    let mut tokens = lexer("let a 5;");
    assert_eq!(Err(ParseError::ExpectedAssign), parse(&mut tokens));
}

#[test]
fn missing_semicolon_after_let_is_an_error() {
    let mut tokens = lexer("let a = 5");
    assert_eq!(Err(ParseError::ExpectedSemicolon), parse(&mut tokens));
}

#[test]
fn stray_operator_is_an_error() {
    let mut tokens = lexer("* 3;");
    assert_eq!(Err(ParseError::UnexpectedToken), parse(&mut tokens));
}

#[test]
fn unclosed_group_is_an_error() {
    let mut tokens = lexer("(1 + 2");
    assert_eq!(Err(ParseError::ExpectedRParen), parse(&mut tokens));
}
