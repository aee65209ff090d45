//! The instruction encoding: the opcode set, serialization of an operation
//! plus operand into bytes, and decoding of a two-byte big-endian operand.
//!
//! Each instruction is one tag byte, followed for operand-bearing opcodes by a
//! 16-bit operand stored most-significant byte first.  The width of an
//! instruction is determined by its opcode alone.

use vstd::prelude::*;

verus! {

/// One virtual-machine operation, before encoding.  Operand-bearing variants
/// carry a constant-pool index, a global slot, or an absolute jump target.
#[derive(Debug, PartialEq, Clone, Copy)]
pub enum OpCode {
    OpConstant(u16),
    OpAdd,
    OpSub,
    OpMul,
    OpDiv,
    OpPop,
    OpTrue,
    OpFalse,
    OpGreater,
    OpLess,
    OpEqual,
    OpNotEqual,
    OpBang,
    OpMinus,
    OpJmp(u16),
    OpJmpIfFalse(u16),
    OpSetGlobal(u16),
    OpGetGlobal(u16),
}

/// The tag byte that identifies an opcode on the wire.
pub open spec fn op_tag(op: OpCode) -> u8 {
    match op {
        OpCode::OpConstant(_) => 0x01,
        OpCode::OpAdd => 0x02,
        OpCode::OpSub => 0x03,
        OpCode::OpMul => 0x04,
        OpCode::OpDiv => 0x05,
        OpCode::OpPop => 0x06,
        OpCode::OpTrue => 0x07,
        OpCode::OpFalse => 0x08,
        OpCode::OpGreater => 0x09,
        OpCode::OpLess => 0x0a,
        OpCode::OpEqual => 0x0b,
        OpCode::OpNotEqual => 0x0c,
        OpCode::OpBang => 0x0d,
        OpCode::OpMinus => 0x0e,
        OpCode::OpJmp(_) => 0x0f,
        OpCode::OpJmpIfFalse(_) => 0x10,
        OpCode::OpSetGlobal(_) => 0x11,
        OpCode::OpGetGlobal(_) => 0x12,
    }
}

/// The operand of an operand-bearing opcode, if any.
pub open spec fn op_operand(op: OpCode) -> Option<u16> {
    match op {
        OpCode::OpConstant(v) => Some(v),
        OpCode::OpJmp(v) => Some(v),
        OpCode::OpJmpIfFalse(v) => Some(v),
        OpCode::OpSetGlobal(v) => Some(v),
        OpCode::OpGetGlobal(v) => Some(v),
        _ => None,
    }
}

/// Whether instructions with this tag byte carry a two-byte operand.
pub open spec fn tag_has_operand(tag: u8) -> bool {
    tag == 0x01 || tag == 0x0f || tag == 0x10 || tag == 0x11 || tag == 0x12
}

/// The byte width of an encoded instruction: one byte for the tag, plus two
/// for the operand when the opcode carries one.
pub open spec fn op_width(op: OpCode) -> nat {
    if op_operand(op) is Some {
        3
    } else {
        1
    }
}

/// The most-significant byte of a 16-bit operand.
pub open spec fn operand_hi(v: u16) -> u8 {
    (v / 256) as u8
}

/// The least-significant byte of a 16-bit operand.
pub open spec fn operand_lo(v: u16) -> u8 {
    (v % 256) as u8
}

/// The exact byte sequence an opcode encodes to: the tag, then, for
/// operand-bearing opcodes, the operand most-significant byte first.
pub open spec fn encode_spec(op: OpCode) -> Seq<u8> {
    match op_operand(op) {
        Some(v) => seq![op_tag(op), operand_hi(v), operand_lo(v)],
        None => seq![op_tag(op)],
    }
}

/// The value a two-byte big-endian operand decodes to.
pub open spec fn decode_operand_spec(hi: u8, lo: u8) -> int {
    hi * 256 + lo
}

/// Serialize one operation into its wire form.
pub fn make_op(opcode: OpCode) -> (output: Vec<u8>)
    ensures
        output@ == encode_spec(opcode),
{
    let (tag, operand): (u8, Option<u16>) = match opcode {
        OpCode::OpConstant(v) => (0x01, Some(v)),
        OpCode::OpAdd => (0x02, None),
        OpCode::OpSub => (0x03, None),
        OpCode::OpMul => (0x04, None),
        OpCode::OpDiv => (0x05, None),
        OpCode::OpPop => (0x06, None),
        OpCode::OpTrue => (0x07, None),
        OpCode::OpFalse => (0x08, None),
        OpCode::OpGreater => (0x09, None),
        OpCode::OpLess => (0x0a, None),
        OpCode::OpEqual => (0x0b, None),
        OpCode::OpNotEqual => (0x0c, None),
        OpCode::OpBang => (0x0d, None),
        OpCode::OpMinus => (0x0e, None),
        OpCode::OpJmp(v) => (0x0f, Some(v)),
        OpCode::OpJmpIfFalse(v) => (0x10, Some(v)),
        OpCode::OpSetGlobal(v) => (0x11, Some(v)),
        OpCode::OpGetGlobal(v) => (0x12, Some(v)),
    };
    let mut output: Vec<u8> = Vec::new();
    output.push(tag);
    match operand {
        Some(v) => {
            let int_one = (v >> 8) as u8;
            let int_two = v as u8;
            proof {
                assert(int_one == operand_hi(v) && int_two == operand_lo(v)) by (bit_vector)
                    requires
                        int_one == (v >> 8) as u8 && int_two == v as u8,
                ;
            }
            output.push(int_one);
            output.push(int_two);
            assert(output@ =~= encode_spec(opcode));
        },
        None => {
            assert(output@ =~= encode_spec(opcode));
        },
    }
    output
}

/// Reassemble a 16-bit big-endian operand from its two bytes.
pub fn two_u8_to_usize(int_one: u8, int_two: u8) -> (r: usize)
    ensures
        r == decode_operand_spec(int_one, int_two),
        r <= u16::MAX,
{
    (int_one as usize) * 256 + (int_two as usize)
}

/// The encoded bytes of an opcode, spelled out.
pub proof fn lemma_encode_unfold(op: OpCode)
    ensures
        match op_operand(op) {
            Some(v) => encode_spec(op) == seq![op_tag(op), operand_hi(v), operand_lo(v)],
            None => encode_spec(op) == seq![op_tag(op)],
        },
{
}

/// Round-trip law: decoding the two operand bytes produced by encoding any
/// 16-bit operand yields that operand unchanged.
pub proof fn lemma_operand_round_trip(v: u16)
    ensures
        decode_operand_spec(operand_hi(v), operand_lo(v)) == v,
{
}

/// Encoding-stability law: an instruction's first byte is always its opcode's
/// fixed tag, its width is determined by the opcode alone, and changing an
/// operand never changes the instruction's byte width.
pub proof fn lemma_encoding_stable(op: OpCode)
    ensures
        encode_spec(op).len() == op_width(op),
        encode_spec(op)[0] == op_tag(op),
        tag_has_operand(op_tag(op)) <==> op_operand(op) is Some,
        forall|other: OpCode|
            op_tag(other) == op_tag(op) ==> #[trigger] encode_spec(other).len() == encode_spec(
                op,
            ).len(),
{
}

} // verus!
