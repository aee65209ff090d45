use monkey::compiler::{ByteCode, Compiler};
use monkey::evaluator::{eval, Environment, Object};
use monkey::lexer::lexer;
use monkey::parser::parse;
use monkey::vm::{Vm, VmError};

fn compiled(input: &str) -> ByteCode {
    Compiler::from_source(input).unwrap()
}

#[test]
fn test_basics() {
    let input = "7";
    let mut vm = Vm::new(compiled(input));
    vm.run().unwrap();
    assert_eq!(Object::Int(7), *vm.last_popped());

    let input = "1 + 2";
    let mut vm = Vm::new(compiled(input));
    vm.run().unwrap();
    assert_eq!(Object::Int(3), *vm.last_popped());

    let input = "2 * 3";
    let mut vm = Vm::new(compiled(input));
    vm.run().unwrap();
    assert_eq!(Object::Int(6), *vm.last_popped());

    let input = "2 * 2 + 6 / 2 - 9";
    let mut vm = Vm::new(compiled(input));
    vm.run().unwrap();
    assert_eq!(Object::Int(-2), *vm.last_popped());

    let input = "1; 2; 3;";
    let mut vm = Vm::new(compiled(input));
    vm.run().unwrap();
    assert_eq!(Object::Int(3), *vm.last_popped());

    let input = "false";
    let mut vm = Vm::new(compiled(input));
    vm.run().unwrap();
    assert_eq!(Object::Boolean(false), *vm.last_popped());

    let input = "true;";
    let mut vm = Vm::new(compiled(input));
    vm.run().unwrap();
    assert_eq!(Object::Boolean(true), *vm.last_popped());
}

#[test]
fn test_comparisons() {
    let input = "1 < 2";
    let mut vm = Vm::new(compiled(input));
    vm.run().unwrap();
    assert_eq!(Object::Boolean(true), *vm.last_popped());

    let input = "1 > 2";
    let mut vm = Vm::new(compiled(input));
    vm.run().unwrap();
    assert_eq!(Object::Boolean(false), *vm.last_popped());

    let input = "3 == 3";
    let mut vm = Vm::new(compiled(input));
    vm.run().unwrap();
    assert_eq!(Object::Boolean(true), *vm.last_popped());

    let input = "3 != 7";
    let mut vm = Vm::new(compiled(input));
    vm.run().unwrap();
    assert_eq!(Object::Boolean(true), *vm.last_popped());
}

#[test]
fn vm_test_prefixes() {
    let input = "-2";
    let mut vm = Vm::new(compiled(input));
    vm.run().unwrap();
    assert_eq!(Object::Int(-2), *vm.last_popped());

    let input = "!true";
    let mut vm = Vm::new(compiled(input));
    vm.run().unwrap();
    assert_eq!(Object::Boolean(false), *vm.last_popped());

    let input = "!!true";
    let mut vm = Vm::new(compiled(input));
    vm.run().unwrap();
    assert_eq!(Object::Boolean(true), *vm.last_popped());
}

#[test]
fn conditionals_take_the_right_branch() {
    let mut vm = Vm::new(compiled("if(true) { 10 } else { 20 }"));
    vm.run().unwrap();
    assert_eq!(Object::Int(10), *vm.last_popped());

    let mut vm = Vm::new(compiled("if(false) { 10 } else { 20 }"));
    vm.run().unwrap();
    assert_eq!(Object::Int(20), *vm.last_popped());

    let mut vm = Vm::new(compiled("if(1 < 2) { 3 * 4 } else { 5 }"));
    vm.run().unwrap();
    assert_eq!(Object::Int(12), *vm.last_popped());
}

#[test]
fn globals_hold_their_values_after_a_run() {
    let mut vm = Vm::new(compiled("let one = 1; let two = 2;"));
    vm.run().unwrap();
    assert_eq!(Object::Int(1), vm.globals()[0]);
    assert_eq!(Object::Int(2), vm.globals()[1]);

    let mut vm = Vm::new(compiled("let one = 1; let two = one + one; two"));
    vm.run().unwrap();
    assert_eq!(Object::Int(2), *vm.last_popped());
}

#[test]
fn rerunning_the_same_artifact_gives_identical_results() {
    let input = "let a = 2; let b = a * 21; b";
    let mut first = Vm::new(compiled(input));
    first.run().unwrap();
    let mut second = Vm::new(compiled(input));
    second.run().unwrap();
    assert_eq!(*first.last_popped(), *second.last_popped());
    assert_eq!(first.globals(), second.globals());
    assert_eq!(Object::Int(42), *second.last_popped());
}

#[test]
fn vm_matches_direct_evaluation_on_arithmetic() {
    for input in ["2 * 2 + 6 / 2 - 9", "1 + 2 + 3", "-4 * -5", "100 / 7", "9 - 2 * 3"] {
        let mut vm = Vm::new(compiled(input));
        vm.run().unwrap();

        let mut tokens = lexer(input);
        let ast = parse(&mut tokens).unwrap();
        let mut env = Environment::new();
        let direct = eval(ast, &mut env).unwrap();

        assert_eq!(direct, *vm.last_popped());
    }
}

#[test]
fn unknown_opcode_is_a_distinct_error() {
    let mut vm = Vm::new(ByteCode { instructions: vec![0xab], constants: vec![] });
    assert_eq!(Err(VmError::UnknownOpcode(0xab)), vm.run());
}

#[test]
fn popping_an_empty_stack_is_a_distinct_error() {
    let mut vm = Vm::new(ByteCode { instructions: vec![6], constants: vec![] });
    assert_eq!(Err(VmError::StackUnderflow), vm.run());
}

#[test]
fn pushing_past_capacity_is_a_distinct_error() {
    // One `True` more than the stack holds.
    let mut vm = Vm::new(ByteCode { instructions: vec![7; 2049], constants: vec![] });
    assert_eq!(Err(VmError::StackOverflow), vm.run());
}

#[test]
fn type_mismatches_are_fatal() {
    let mut vm = Vm::new(ByteCode { instructions: vec![7, 7, 2], constants: vec![] });
    assert_eq!(Err(VmError::TypeMismatch), vm.run());

    let mut vm = Vm::new(compiled("!1"));
    assert_eq!(Err(VmError::TypeMismatch), vm.run());

    let mut vm = Vm::new(compiled("true == false"));
    assert_eq!(Err(VmError::TypeMismatch), vm.run());
}

#[test]
fn dividing_by_zero_halts_the_machine() {
    let mut vm = Vm::new(compiled("1 / 0"));
    assert_eq!(Err(VmError::DivisionByZero), vm.run());
}

#[test]
fn truncated_instructions_are_fatal() {
    let mut vm = Vm::new(ByteCode { instructions: vec![1, 0], constants: vec![] });
    assert_eq!(Err(VmError::TruncatedInstruction), vm.run());
}

#[test]
fn out_of_range_references_are_fatal() {
    let mut vm = Vm::new(ByteCode { instructions: vec![1, 0, 5], constants: vec![] });
    assert_eq!(Err(VmError::ConstantOutOfRange), vm.run());

    let mut vm = Vm::new(ByteCode { instructions: vec![18, 0, 0], constants: vec![] });
    assert_eq!(Err(VmError::UndefinedGlobal), vm.run());
}

#[test]
fn jumping_past_the_stream_halts_cleanly() {
    let mut vm = Vm::new(ByteCode { instructions: vec![15, 255, 255], constants: vec![] });
    assert_eq!(Ok(()), vm.run());
    assert_eq!(Object::Null, *vm.last_popped());
}
