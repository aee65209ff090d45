use monkey::evaluator::{eval, Environment, EvalError, Object};
use monkey::lexer::lexer;
use monkey::parser::{parse, Expression, Statement};

// Convenience function to lex, parse and eval an input
fn evaluated(input: &str) -> Object {
    let mut tokens = lexer(input);
    let statements = parse(&mut tokens).unwrap();
    let mut env = Environment::new();
    eval(statements, &mut env).unwrap()
}

fn eval_error(input: &str) -> EvalError {
    let mut tokens = lexer(input);
    let statements = parse(&mut tokens).unwrap();
    let mut env = Environment::new();
    eval(statements, &mut env).unwrap_err()
}

#[test]
fn evaluator_test_expression_eval() {
    let input = "5";
    let expected = Object::Int(5);
    assert_eq!(expected, evaluated(input));

    let input = "false";
    let expected = Object::Boolean(false);
    assert_eq!(expected, evaluated(input));

    let input = "'hello'";
    let expected = Object::String("hello".to_owned());
    assert_eq!(expected, evaluated(input));
}

#[test]
fn evaluator_test_prefixes() {
    let input = "!true";
    let expected = Object::Boolean(false);
    assert_eq!(expected, evaluated(input));

    let input = "!!false";
    let expected = Object::Boolean(false);
    assert_eq!(expected, evaluated(input));

    let input = "-27";
    let expected = Object::Int(-27);
    assert_eq!(expected, evaluated(input));
}

#[test]
fn evaluator_test_infixes() {
    let input = "2 + 3";
    let expected = Object::Int(5);
    assert_eq!(expected, evaluated(input));

    let input = "2 - 3";
    let expected = Object::Int(-1);
    assert_eq!(expected, evaluated(input));

    let input = "2 * 3";
    let expected = Object::Int(6);
    assert_eq!(expected, evaluated(input));

    let input = "9 / 3";
    let expected = Object::Int(3);
    assert_eq!(expected, evaluated(input));

    let input = "9 == 3";
    let expected = Object::Boolean(false);
    assert_eq!(expected, evaluated(input));

    let input = "9 == 9";
    let expected = Object::Boolean(true);
    assert_eq!(expected, evaluated(input));

    let input = "true == false";
    let expected = Object::Boolean(false);
    assert_eq!(expected, evaluated(input));

    let input = "3 != 6";
    let expected = Object::Boolean(true);
    assert_eq!(expected, evaluated(input));

    let input = "true != false";
    let expected = Object::Boolean(true);
    assert_eq!(expected, evaluated(input));

    let input = "3 > 4";
    let expected = Object::Boolean(false);
    assert_eq!(expected, evaluated(input));

    let input = "3 < 4";
    let expected = Object::Boolean(true);
    assert_eq!(expected, evaluated(input));
}

#[test]
fn evaluator_test_if_conditionals() {
    let input = "if(true) { 1 }";
    let expected = Object::Int(1);
    assert_eq!(expected, evaluated(input));

    let input = "if(false) { 1 } else { 2 }";
    let expected = Object::Int(2);
    assert_eq!(expected, evaluated(input));

    let input = "if(2 > 1) { true } else { false }";
    let expected = Object::Boolean(true);
    assert_eq!(expected, evaluated(input));

    let input = "if(2 < 1) { true } else { false }";
    let expected = Object::Boolean(false);
    assert_eq!(expected, evaluated(input));

    let input = "if(2 - 3 + 29 == 4 * 7) { 1 } else { 2 }";
    let expected = Object::Int(1);
    assert_eq!(expected, evaluated(input));
}

#[test]
fn evaluator_test_return() {
    let input = "return 2; 7";
    let expected = Object::Int(2);
    assert_eq!(expected, evaluated(input));

    let input = "if(true) {
            if(true) {
                return 2;
            }
            return 1;
        }";
    let expected = Object::Int(2);
    assert_eq!(expected, evaluated(input));
}

#[test]
fn test_env() {
    let input = "let a = 3; return a;";
    let expected = Object::Int(3);
    assert_eq!(expected, evaluated(input));
}

#[test]
fn test_fn_literals() {
    let input = "fn() { return 1; }";
    let expected = Object::Function {
        parameters: vec![],
        body: vec![Statement::Return { value: Expression::Int(1) }],
    };
    assert_eq!(expected, evaluated(input));

    let input = "fn(a, b) { return true; }";
    let expected = Object::Function {
        parameters: vec!["a".to_owned(), "b".to_owned()],
        body: vec![Statement::Return { value: Expression::Boolean(true) }],
    };
    assert_eq!(expected, evaluated(input));
}

#[test]
fn test_fn_calls() {
    let input = "let ret = fn(x) { return x; }; ret(5)";
    let expected = Object::Int(5);
    assert_eq!(expected, evaluated(input));

    let input = "let ret = fn(x, y) { return x + y; }; ret(5, 9)";
    let expected = Object::Int(14);
    assert_eq!(expected, evaluated(input));
}

#[test]
fn arithmetic_on_booleans_is_a_type_error() {
    assert_eq!(EvalError::TypeMismatch, eval_error("1 + true"));
    assert_eq!(EvalError::TypeMismatch, eval_error("!3"));
    assert_eq!(EvalError::TypeMismatch, eval_error("-false"));
    assert_eq!(EvalError::TypeMismatch, eval_error("if(1) { 2 }"));
}

#[test]
fn dividing_by_zero_is_an_error() {
    assert_eq!(EvalError::DivisionByZero, eval_error("5 / 0"));
}

#[test]
fn unbound_names_are_errors() {
    assert_eq!(EvalError::UndefinedVariable, eval_error("missing"));
    assert_eq!(EvalError::NotAFunction, eval_error("let a = 1; a(2)"));
}

#[test]
fn wrong_argument_count_is_an_error() {
    assert_eq!(EvalError::ArgCountMismatch, eval_error("let f = fn(a, b) { return a; }; f(1)"));
}

#[test]
fn runaway_recursion_is_cut_off() {
    assert_eq!(
        EvalError::CallDepthExceeded,
        eval_error("let w = fn(x) { return x(x); }; w(w)")
    );
}

#[test]
fn bindings_shadow_earlier_ones() {
    assert_eq!(Object::Int(9), evaluated("let a = 3; let a = 9; a"));
}
