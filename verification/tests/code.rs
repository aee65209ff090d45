use monkey::code::{make_op, two_u8_to_usize, OpCode};

#[test]
fn make_op_constant() {
    let op = make_op(OpCode::OpConstant(65534));
    let expected = vec![0x01, 255, 254];
    assert_eq!(expected, op);

    let op = make_op(OpCode::OpConstant(4449));
    let expected = vec![0x01, 17, 97];
    assert_eq!(expected, op);
}

#[test]
fn make_ops() {
    let op = make_op(OpCode::OpAdd);
    let expected = vec![0x02];
    assert_eq!(expected, op);

    let op = make_op(OpCode::OpSub);
    let expected = vec![0x03];
    assert_eq!(expected, op);

    let op = make_op(OpCode::OpMul);
    let expected = vec![0x04];
    assert_eq!(expected, op);

    let op = make_op(OpCode::OpDiv);
    let expected = vec![0x05];
    assert_eq!(expected, op);

    let op = make_op(OpCode::OpPop);
    let expected = vec![0x06];
    assert_eq!(expected, op);

    let op = make_op(OpCode::OpTrue);
    let expected = vec![0x07];
    assert_eq!(expected, op);

    let op = make_op(OpCode::OpFalse);
    let expected = vec![0x08];
    assert_eq!(expected, op);

    let op = make_op(OpCode::OpGreater);
    let expected = vec![0x09];
    assert_eq!(expected, op);

    let op = make_op(OpCode::OpLess);
    let expected = vec![0x0a];
    assert_eq!(expected, op);

    let op = make_op(OpCode::OpEqual);
    let expected = vec![0x0b];
    assert_eq!(expected, op);

    let op = make_op(OpCode::OpNotEqual);
    let expected = vec![0x0c];
    assert_eq!(expected, op);

    let op = make_op(OpCode::OpBang);
    let expected = vec![0x0d];
    assert_eq!(expected, op);

    let op = make_op(OpCode::OpMinus);
    let expected = vec![0x0e];
    assert_eq!(expected, op);
}

#[test]
fn test_jumps() {
    let op = make_op(OpCode::OpJmp(65534));
    let expected = vec![0x0f, 255, 254];
    assert_eq!(expected, op);

    let op = make_op(OpCode::OpJmpIfFalse(65534));
    let expected = vec![0x10, 255, 254];
    assert_eq!(expected, op);
}

#[test]
fn code_test_globals() {
    let op = make_op(OpCode::OpSetGlobal(65534));
    let expected = vec![0x11, 255, 254];
    assert_eq!(expected, op);

    let op = make_op(OpCode::OpGetGlobal(65534));
    let expected = vec![0x12, 255, 254];
    assert_eq!(expected, op);
}

#[test]
fn test_two_u8_to_usize() {
    let input = two_u8_to_usize(1, 1);
    let expected = 257;
    assert_eq!(expected, input);

    let input = two_u8_to_usize(10, 77);
    let expected = 2637;
    assert_eq!(expected, input);
}

#[test]
fn operand_round_trip_boundaries() {
    for v in [0u16, 1, 255, 256, 65535] {
        let bytes = make_op(OpCode::OpConstant(v));
        assert_eq!(v as usize, two_u8_to_usize(bytes[1], bytes[2]));
        let bytes = make_op(OpCode::OpJmp(v));
        assert_eq!(v as usize, two_u8_to_usize(bytes[1], bytes[2]));
    }
}

#[test]
fn encoding_width_is_operand_independent() {
    assert_eq!(make_op(OpCode::OpConstant(0)).len(), make_op(OpCode::OpConstant(65535)).len());
    assert_eq!(make_op(OpCode::OpJmp(0)).len(), make_op(OpCode::OpJmp(9999)).len());
    assert_eq!(make_op(OpCode::OpJmpIfFalse(1)).len(), make_op(OpCode::OpJmpIfFalse(256)).len());
    assert_eq!(make_op(OpCode::OpSetGlobal(2)).len(), make_op(OpCode::OpSetGlobal(512)).len());
    assert_eq!(make_op(OpCode::OpGetGlobal(3)).len(), make_op(OpCode::OpGetGlobal(768)).len());
    assert_eq!(1, make_op(OpCode::OpAdd).len());
    assert_eq!(3, make_op(OpCode::OpConstant(7)).len());
}
