use monkey::compiler::{ByteCode, CompileError, Compiler};
use monkey::evaluator::Object;
use monkey::parser::ParseError;

fn compiled(input: &str) -> ByteCode {
    Compiler::from_source(input).unwrap()
}

#[test]
fn test_basic_expressions() {
    let input = "3";
    let expected = ByteCode {
        instructions: vec![1, 0, 0, 6],
        constants: vec![Object::Int(3)],
    };
    assert_eq!(expected, compiled(input));

    let input = "1 + 2";
    let expected = ByteCode {
        instructions: vec![1, 0, 0, 1, 0, 1, 2, 6],
        constants: vec![Object::Int(1), Object::Int(2)],
    };
    assert_eq!(expected, compiled(input));

    let input = "1 + 2 + 3";
    let expected = ByteCode {
        instructions: vec![
            1, 0, 0, // first constant
            1, 0, 1, // second constant
            2,       // add
            1, 0, 2, // third constant
            2,       // add
            6,       // pop
        ],
        constants: vec![Object::Int(1), Object::Int(2), Object::Int(3)],
    };
    assert_eq!(expected, compiled(input));

    let input = "1 - 2";
    let expected = ByteCode {
        instructions: vec![1, 0, 0, 1, 0, 1, 3, 6],
        constants: vec![Object::Int(1), Object::Int(2)],
    };
    assert_eq!(expected, compiled(input));

    let input = "1 * 2 - 3 / 3 + 4";
    let expected = ByteCode {
        instructions: vec![
            1, 0, 0, // constant 1
            1, 0, 1, // constant 2
            4,       // mul
            1, 0, 2, // constant 3
            1, 0, 3, // constant 3 again
            5,       // div
            3,       // sub
            1, 0, 4, // constant 4
            2,       // add
            6,       // pop
        ],
        constants: vec![
            Object::Int(1),
            Object::Int(2),
            Object::Int(3),
            Object::Int(3),
            Object::Int(4),
        ],
    };
    assert_eq!(expected, compiled(input));
}

#[test]
fn test_booleans() {
    let input = "true";
    let expected = ByteCode { instructions: vec![7, 6], constants: vec![] };
    assert_eq!(expected, compiled(input));

    let input = "false;";
    let expected = ByteCode { instructions: vec![8, 6], constants: vec![] };
    assert_eq!(expected, compiled(input));
}

#[test]
fn test_comparison_operators() {
    let input = "1 > 2";
    let expected = ByteCode {
        instructions: vec![1, 0, 0, 1, 0, 1, 9, 6],
        constants: vec![Object::Int(1), Object::Int(2)],
    };
    assert_eq!(expected, compiled(input));

    let input = "1 < 2";
    let expected = ByteCode {
        instructions: vec![1, 0, 0, 1, 0, 1, 10, 6],
        constants: vec![Object::Int(1), Object::Int(2)],
    };
    assert_eq!(expected, compiled(input));

    let input = "1 == 2";
    let expected = ByteCode {
        instructions: vec![1, 0, 0, 1, 0, 1, 11, 6],
        constants: vec![Object::Int(1), Object::Int(2)],
    };
    assert_eq!(expected, compiled(input));

    let input = "1 != 2";
    let expected = ByteCode {
        instructions: vec![1, 0, 0, 1, 0, 1, 12, 6],
        constants: vec![Object::Int(1), Object::Int(2)],
    };
    assert_eq!(expected, compiled(input));
}

#[test]
fn compiler_test_prefixes() {
    let input = "-1";
    let expected = ByteCode {
        instructions: vec![1, 0, 0, 14, 6],
        constants: vec![Object::Int(1)],
    };
    assert_eq!(expected, compiled(input));

    let input = "!false";
    let expected = ByteCode { instructions: vec![8, 13, 6], constants: vec![] };
    assert_eq!(expected, compiled(input));
}

#[test]
fn test_if() {
    let input = "if(true) { 10 }";
    let expected = ByteCode {
        instructions: vec![7, 16, 0, 7, 1, 0, 0, 6],
        constants: vec![Object::Int(10)],
    };
    assert_eq!(expected, compiled(input));

    let input = "if(true) { 10 } else { 20 }";
    let expected = ByteCode {
        instructions: vec![
            7,         // true
            16, 0, 10, // jump-if-false over the consequence
            1, 0, 0,   // constant 10
            15, 0, 13, // jump over the alternative
            1, 0, 1,   // constant 20
            6,         // pop
        ],
        constants: vec![Object::Int(10), Object::Int(20)],
    };
    assert_eq!(expected, compiled(input));
}

#[test]
fn compiler_test_globals() {
    let input = "let one = 1; let two = 2;";
    let expected = ByteCode {
        instructions: vec![
            1, 0, 0,  // constant 1
            17, 0, 0, // set first global slot
            1, 0, 1,  // constant 2
            17, 0, 1, // set second global slot
        ],
        constants: vec![Object::Int(1), Object::Int(2)],
    };
    assert_eq!(expected, compiled(input));
}

#[test]
fn undefined_reference_is_a_compile_error() {
    assert_eq!(Err(CompileError::UndefinedVariable), Compiler::from_source("missing"));
}

#[test]
fn unsupported_forms_are_compile_errors() {
    assert_eq!(Err(CompileError::UnsupportedStatement), Compiler::from_source("return 5;"));
    assert_eq!(Err(CompileError::UnsupportedExpression), Compiler::from_source("'text'"));
    assert_eq!(
        Err(CompileError::UnsupportedExpression),
        Compiler::from_source("fn(a) { return a; }")
    );
}

#[test]
fn parse_failures_surface_as_compile_errors() {
    assert_eq!(
        Err(CompileError::Parse(ParseError::ExpectedIdent)),
        Compiler::from_source("let = 1;")
    );
}

#[test]
fn globals_resolve_to_their_slots() {
    let input = "let one = 1; one";
    let expected = ByteCode {
        instructions: vec![
            1, 0, 0,  // constant 1
            17, 0, 0, // set the slot
            18, 0, 0, // read it back
            6,        // pop
        ],
        constants: vec![Object::Int(1)],
    };
    assert_eq!(expected, compiled(input));
}
