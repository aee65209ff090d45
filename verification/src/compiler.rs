//! The bytecode compiler: walks the syntax tree, emits instructions through
//! the encoder, manages the constant pool, and assigns global slots through
//! the symbol table.
//!
//! Forward jumps are emitted with a placeholder operand and patched in place
//! once the target offset is known.  A compile either fully succeeds or
//! reports an error before any bytecode is handed out; an operand that would
//! not fit its sixteen bits is an error, never a truncated instruction.

use crate::code::{encode_spec, make_op, OpCode};
use crate::evaluator::{expr_height, obj_view, objs_view, stmt_height, stmts_height, ObjView, Object};
use crate::lexer::lexer;
use crate::parser::{
    expr_view, parse, parse_spec, stmt_view, stmts_view, ExprView, Expression, Operator,
    ParseError, Prefix, Statement, StmtView,
};
use crate::symbol_table::{SymbolTable, SymbolTableView, SymbolView};
use vstd::prelude::*;

verus! {

/// The scope tag every symbol carries while only the global scope exists.
pub const GLOBAL: &'static str = "GLOBAL";

/// The characters of the global scope tag.
pub open spec fn global_scope() -> Seq<char> {
    seq!['G', 'L', 'O', 'B', 'A', 'L']
}

/// The error the compiler reports instead of emitting corrupt bytecode.
#[derive(Debug, PartialEq, Eq, Structural, Clone, Copy)]
pub enum CompileError {
    Parse(ParseError),
    UnsupportedStatement,
    UnsupportedExpression,
    UndefinedVariable,
    TooManyGlobals,
    TooManyConstants,
    CodeTooLong,
}

/// The product of one compilation: the instruction stream and the constant
/// pool it indexes into.
#[derive(Debug, PartialEq)]
pub struct ByteCode {
    pub instructions: Vec<u8>,
    pub constants: Vec<Object>,
}

impl ByteCode {
    fn new() -> (r: ByteCode)
        ensures
            r.instructions@ == Seq::<u8>::empty(),
            r.constants@ == Seq::<Object>::empty(),
    {
        ByteCode { instructions: Vec::new(), constants: Vec::new() }
    }
}

/// The mathematical state of a compilation: the bytes emitted so far, the
/// constant pool, and the symbol table.
#[verifier::ext_equal]
pub struct CompState {
    pub code: Seq<u8>,
    pub consts: Seq<ObjView>,
    pub syms: SymbolTableView,
}

/// The state a fresh compiler starts from.
pub open spec fn init_state() -> CompState {
    CompState {
        code: Seq::empty(),
        consts: Seq::empty(),
        syms: SymbolTableView {
            symbols: Map::empty(),
            next_index: 0,
        },
    }
}

/// The bytes `bs` written over `s` starting at `pos`, the rest unchanged.
pub open spec fn splice(s: Seq<u8>, pos: int, bs: Seq<u8>) -> Seq<u8> {
    s.take(pos) + bs + s.skip(pos + bs.len())
}

/// Whether the last emitted byte is the `Pop` opcode's tag.
pub open spec fn ends_with_pop(code: Seq<u8>) -> bool {
    code.len() > 0 && code.last() == 0x06u8
}

/// The code with a trailing `Pop` removed, when one is there.
pub open spec fn without_trailing_pop(code: Seq<u8>) -> Seq<u8> {
    if ends_with_pop(code) {
        code.drop_last()
    } else {
        code
    }
}

/// What compiling a statement sequence yields.  Mirrors the executable
/// `compile_statements`.
pub open spec fn compile_stmts_spec(ss: Seq<StmtView>, st: CompState) -> Result<
    CompState,
    CompileError,
>
    decreases stmts_height(ss), 2int,
{
    if ss.len() == 0 {
        Ok(st)
    } else {
        match compile_stmt_spec(ss[0], st) {
            Ok(st2) => compile_stmts_spec(ss.subrange(1, ss.len() as int), st2),
            Err(e) => Err(e),
        }
    }
}

/// What compiling one statement yields: an expression statement's code
/// followed by `Pop`, or a binding's value code followed by `SetGlobal` of
/// the newly assigned slot.
pub open spec fn compile_stmt_spec(s: StmtView, st: CompState) -> Result<CompState, CompileError>
    decreases stmt_height(s), 1int,
{
    match s {
        StmtView::ExpressionStatement(e) => match compile_expr_spec(e, st) {
            Ok(st2) => Ok(
                CompState {
                    code: st2.code + encode_spec(OpCode::OpPop),
                    ..st2
                },
            ),
            Err(er) => Err(er),
        },
        StmtView::Let { name, value } => match compile_expr_spec(value, st) {
            Ok(st2) => if st2.syms.next_index == u16::MAX {
                Err(CompileError::TooManyGlobals)
            } else {
                let idx = st2.syms.next_index;
                Ok(
                    CompState {
                        code: st2.code + encode_spec(OpCode::OpSetGlobal(idx)),
                        consts: st2.consts,
                        syms: SymbolTableView {
                            symbols: st2.syms.symbols.insert(
                                name,
                                SymbolView { index: idx, scope: global_scope() },
                            ),
                            next_index: (idx + 1) as u16,
                        },
                    },
                )
            },
            Err(er) => Err(er),
        },
        StmtView::Return { value } => Err(CompileError::UnsupportedStatement),
    }
}

/// What compiling one expression yields: code that, run against the
/// constant pool, leaves the expression's value on top of the stack.
/// Mirrors the executable `compile_expression`.
pub open spec fn compile_expr_spec(e: ExprView, st: CompState) -> Result<CompState, CompileError>
    decreases expr_height(e), 0int,
{
    match e {
        ExprView::Int(v) => if st.consts.len() > 0xFFFF {
            Err(CompileError::TooManyConstants)
        } else {
            Ok(
                CompState {
                    code: st.code + encode_spec(OpCode::OpConstant(st.consts.len() as u16)),
                    consts: st.consts.push(ObjView::Int(v)),
                    syms: st.syms,
                },
            )
        },
        ExprView::Boolean(b) => Ok(
            CompState {
                code: st.code + encode_spec(
                    if b {
                        OpCode::OpTrue
                    } else {
                        OpCode::OpFalse
                    },
                ),
                ..st
            },
        ),
        ExprView::Infix { left, op, right } => match compile_expr_spec(*left, st) {
            Ok(st1) => match compile_expr_spec(*right, st1) {
                Ok(st2) => Ok(
                    CompState { code: st2.code + encode_spec(infix_opcode(op)), ..st2 },
                ),
                Err(er) => Err(er),
            },
            Err(er) => Err(er),
        },
        ExprView::Prefix { prefix, value } => match compile_expr_spec(*value, st) {
            Ok(st1) => Ok(
                CompState {
                    code: st1.code + encode_spec(
                        match prefix {
                            Prefix::MINUS => OpCode::OpMinus,
                            Prefix::BANG => OpCode::OpBang,
                        },
                    ),
                    ..st1
                },
            ),
            Err(er) => Err(er),
        },
        ExprView::If { condition, consequence, alternative } => compile_if_spec(
            *condition,
            consequence,
            alternative,
            st,
        ),
        ExprView::Ident(name) => if st.syms.symbols.contains_key(name) {
            Ok(
                CompState {
                    code: st.code + encode_spec(
                        OpCode::OpGetGlobal(st.syms.symbols[name].index),
                    ),
                    ..st
                },
            )
        } else {
            Err(CompileError::UndefinedVariable)
        },
        ExprView::String(_) => Err(CompileError::UnsupportedExpression),
        ExprView::FnLiteral { parameters, body } => Err(CompileError::UnsupportedExpression),
        ExprView::FnCall { function, args } => Err(CompileError::UnsupportedExpression),
    }
}

/// The opcode an infix operator compiles to.
pub open spec fn infix_opcode(op: Operator) -> OpCode {
    match op {
        Operator::PLUS => OpCode::OpAdd,
        Operator::MINUS => OpCode::OpSub,
        Operator::MULTIPLY => OpCode::OpMul,
        Operator::DIVIDE => OpCode::OpDiv,
        Operator::GREATER => OpCode::OpGreater,
        Operator::LESS => OpCode::OpLess,
        Operator::EQUAL => OpCode::OpEqual,
        Operator::NEQUAL => OpCode::OpNotEqual,
    }
}

/// What compiling a conditional yields: the condition's code, a
/// `JumpIfFalse` patched to the offset after the consequence (the start of
/// the alternative when there is one), the consequence with a trailing
/// `Pop` elided, and, when there is an alternative, a `Jump` over it
/// patched to the offset after it.
pub open spec fn compile_if_spec(
    condition: ExprView,
    consequence: Seq<StmtView>,
    alternative: Seq<StmtView>,
    st: CompState,
) -> Result<CompState, CompileError>
    decreases expr_height(condition) + stmts_height(consequence) + stmts_height(alternative), 3int,
{
    match compile_expr_spec(condition, st) {
        Err(er) => Err(er),
        Ok(st1) => {
            let jmp_false = st1.code.len() as int;
            let st2 = CompState {
                code: st1.code + encode_spec(OpCode::OpJmpIfFalse(9999)),
                ..st1
            };
            match compile_stmts_spec(consequence, st2) {
                Err(er) => Err(er),
                Ok(st3) => {
                    let st4 = CompState { code: without_trailing_pop(st3.code), ..st3 };
                    if alternative.len() == 0 {
                        if st4.code.len() > 0xFFFF {
                            Err(CompileError::CodeTooLong)
                        } else {
                            Ok(
                                CompState {
                                    code: splice(
                                        st4.code,
                                        jmp_false,
                                        encode_spec(
                                            OpCode::OpJmpIfFalse(st4.code.len() as u16),
                                        ),
                                    ),
                                    ..st4
                                },
                            )
                        }
                    } else {
                        let jmp = st4.code.len() as int;
                        let st5 = CompState {
                            code: st4.code + encode_spec(OpCode::OpJmp(9999)),
                            ..st4
                        };
                        if st5.code.len() > 0xFFFF {
                            Err(CompileError::CodeTooLong)
                        } else {
                            let st6 = CompState {
                                code: splice(
                                    st5.code,
                                    jmp_false,
                                    encode_spec(OpCode::OpJmpIfFalse(st5.code.len() as u16)),
                                ),
                                ..st5
                            };
                            match compile_stmts_spec(alternative, st6) {
                                Err(er) => Err(er),
                                Ok(st7) => {
                                    let st8 = CompState {
                                        code: without_trailing_pop(st7.code),
                                        ..st7
                                    };
                                    if st8.code.len() > 0xFFFF {
                                        Err(CompileError::CodeTooLong)
                                    } else {
                                        Ok(
                                            CompState {
                                                code: splice(
                                                    st8.code,
                                                    jmp,
                                                    encode_spec(
                                                        OpCode::OpJmp(st8.code.len() as u16),
                                                    ),
                                                ),
                                                ..st8
                                            },
                                        )
                                    }
                                },
                            }
                        }
                    }
                },
            }
        },
    }
}

/// Compiling a statement sequence only appends: the emitted code keeps what
/// was there as a prefix.
pub proof fn lemma_compile_stmts_grows(ss: Seq<StmtView>, st: CompState)
    ensures
        match compile_stmts_spec(ss, st) {
            Ok(st2) => st2.code.len() >= st.code.len() && st2.code.take(st.code.len() as int)
                == st.code && st2.consts.len() >= st.consts.len() && st2.consts.take(
                st.consts.len() as int,
            ) == st.consts,
            Err(_) => true,
        },
    decreases stmts_height(ss), 2int,
{
    if ss.len() == 0 {
        assert(st.code.take(st.code.len() as int) =~= st.code);
        assert(st.consts.take(st.consts.len() as int) =~= st.consts);
    } else {
        lemma_compile_stmt_grows(ss[0], st);
        match compile_stmt_spec(ss[0], st) {
            Ok(st2) => {
                lemma_compile_stmts_grows(ss.subrange(1, ss.len() as int), st2);
                match compile_stmts_spec(ss.subrange(1, ss.len() as int), st2) {
                    Ok(st3) => {
                        assert(st3.code.take(st.code.len() as int) =~= st.code);
                        assert(st3.consts.take(st.consts.len() as int) =~= st.consts);
                    },
                    Err(_) => {},
                }
            },
            Err(_) => {},
        }
    }
}

/// Compiling one statement only appends, and emits at least one byte.
pub proof fn lemma_compile_stmt_grows(s: StmtView, st: CompState)
    ensures
        match compile_stmt_spec(s, st) {
            Ok(st2) => st2.code.len() > st.code.len() && st2.code.take(st.code.len() as int)
                == st.code && st2.consts.len() >= st.consts.len() && st2.consts.take(
                st.consts.len() as int,
            ) == st.consts,
            Err(_) => true,
        },
    decreases stmt_height(s), 1int,
{
    match s {
        StmtView::ExpressionStatement(e) => {
            lemma_compile_expr_grows(e, st);
            match compile_expr_spec(e, st) {
                Ok(st2) => {
                    assert((st2.code + encode_spec(OpCode::OpPop)).take(st.code.len() as int)
                        =~= st.code);
                    assert(st2.consts.take(st.consts.len() as int) =~= st.consts);
                },
                Err(_) => {},
            }
        },
        StmtView::Let { name, value } => {
            lemma_compile_expr_grows(value, st);
            match compile_expr_spec(value, st) {
                Ok(st2) => {
                    assert((st2.code + encode_spec(OpCode::OpSetGlobal(st2.syms.next_index))).take(
                        st.code.len() as int,
                    ) =~= st.code);
                    assert(st2.consts.take(st.consts.len() as int) =~= st.consts);
                },
                Err(_) => {},
            }
        },
        StmtView::Return { value } => {},
    }
}

/// Compiling one expression only appends, and emits at least one byte.
pub proof fn lemma_compile_expr_grows(e: ExprView, st: CompState)
    ensures
        match compile_expr_spec(e, st) {
            Ok(st2) => st2.code.len() > st.code.len() && st2.code.take(st.code.len() as int)
                == st.code && st2.consts.len() >= st.consts.len() && st2.consts.take(
                st.consts.len() as int,
            ) == st.consts,
            Err(_) => true,
        },
    decreases expr_height(e), 0int,
{
    match e {
        ExprView::Int(v) => {
            if st.consts.len() <= 0xFFFF {
                assert((st.code + encode_spec(
                    OpCode::OpConstant(st.consts.len() as u16),
                )).take(st.code.len() as int) =~= st.code);
                assert(st.consts.push(ObjView::Int(v)).take(st.consts.len() as int) =~= st.consts);
            }
        },
        ExprView::Boolean(b) => {
            let oc = if b {
                OpCode::OpTrue
            } else {
                OpCode::OpFalse
            };
            assert((st.code + encode_spec(oc)).take(st.code.len() as int) =~= st.code);
            assert(st.consts.take(st.consts.len() as int) =~= st.consts);
        },
        ExprView::Infix { left, op, right } => {
            lemma_compile_expr_grows(*left, st);
            match compile_expr_spec(*left, st) {
                Ok(st1) => {
                    lemma_compile_expr_grows(*right, st1);
                    match compile_expr_spec(*right, st1) {
                        Ok(st2) => {
                            assert((st2.code + encode_spec(infix_opcode(op))).take(
                                st.code.len() as int,
                            ) =~= st.code);
                            assert(st2.consts.take(st.consts.len() as int) =~= st.consts);
                        },
                        Err(_) => {},
                    }
                },
                Err(_) => {},
            }
        },
        ExprView::Prefix { prefix, value } => {
            lemma_compile_expr_grows(*value, st);
            match compile_expr_spec(*value, st) {
                Ok(st1) => {
                    let oc = match prefix {
                        Prefix::MINUS => OpCode::OpMinus,
                        Prefix::BANG => OpCode::OpBang,
                    };
                    assert((st1.code + encode_spec(oc)).take(st.code.len() as int) =~= st.code);
                    assert(st1.consts.take(st.consts.len() as int) =~= st.consts);
                },
                Err(_) => {},
            }
        },
        ExprView::If { condition, consequence, alternative } => {
            lemma_compile_if_grows(*condition, consequence, alternative, st);
        },
        ExprView::Ident(name) => {
            if st.syms.symbols.contains_key(name) {
                assert((st.code + encode_spec(
                    OpCode::OpGetGlobal(st.syms.symbols[name].index),
                )).take(st.code.len() as int) =~= st.code);
                assert(st.consts.take(st.consts.len() as int) =~= st.consts);
            }
        },
        ExprView::String(_) => {},
        ExprView::FnLiteral { parameters, body } => {},
        ExprView::FnCall { function, args } => {},
    }
}

/// Compiling a conditional only appends; its back-patches land inside the
/// newly emitted code, after the jump it patched was emitted.
pub proof fn lemma_compile_if_grows(
    condition: ExprView,
    consequence: Seq<StmtView>,
    alternative: Seq<StmtView>,
    st: CompState,
)
    ensures
        match compile_if_spec(condition, consequence, alternative, st) {
            Ok(st2) => st2.code.len() > st.code.len() && st2.code.take(st.code.len() as int)
                == st.code && st2.consts.len() >= st.consts.len() && st2.consts.take(
                st.consts.len() as int,
            ) == st.consts,
            Err(_) => true,
        },
    decreases expr_height(condition) + stmts_height(consequence) + stmts_height(alternative), 3int,
{
    lemma_compile_expr_grows(condition, st);
    match compile_expr_spec(condition, st) {
        Err(_) => {},
        Ok(st1) => {
            let jmp_false = st1.code.len() as int;
            let st2 = CompState {
                code: st1.code + encode_spec(OpCode::OpJmpIfFalse(9999)),
                ..st1
            };
            assert(st2.code.take(st1.code.len() as int) =~= st1.code);
            lemma_compile_stmts_grows(consequence, st2);
            match compile_stmts_spec(consequence, st2) {
                Err(_) => {},
                Ok(st3) => {
                    crate::code::lemma_encode_unfold(OpCode::OpJmpIfFalse(9999));
                    assert(crate::code::operand_lo(9999) == 0x0Fu8);
                    assert(st2.code.last() == 0x0Fu8);
                    let st4 = CompState { code: without_trailing_pop(st3.code), ..st3 };
                    assert(st4.code.len() >= st2.code.len()) by {
                        if ends_with_pop(st3.code) {
                            if st3.code.len() == st2.code.len() {
                                assert(st3.code =~= st2.code);
                            }
                        }
                    }
                    assert(st4.code.take(st2.code.len() as int) =~= st2.code);
                    if alternative.len() == 0 {
                        if st4.code.len() <= 0xFFFF {
                            let patched = splice(
                                st4.code,
                                jmp_false,
                                encode_spec(OpCode::OpJmpIfFalse(st4.code.len() as u16)),
                            );
                            assert(patched.len() == st4.code.len());
                            assert(patched.take(st.code.len() as int) =~= st.code);
                            assert(st4.consts.take(st.consts.len() as int) =~= st.consts);
                        }
                    } else {
                        let jmp = st4.code.len() as int;
                        let st5 = CompState {
                            code: st4.code + encode_spec(OpCode::OpJmp(9999)),
                            ..st4
                        };
                        if st5.code.len() <= 0xFFFF {
                            let st6 = CompState {
                                code: splice(
                                    st5.code,
                                    jmp_false,
                                    encode_spec(OpCode::OpJmpIfFalse(st5.code.len() as u16)),
                                ),
                                ..st5
                            };
                            assert(st6.code.len() == st5.code.len());
                            crate::code::lemma_encode_unfold(OpCode::OpJmp(9999));
                            crate::code::lemma_encode_unfold(
                                OpCode::OpJmpIfFalse(st5.code.len() as u16),
                            );
                            assert(jmp_false + 3 <= jmp);
                            assert(st5.code[jmp + 2] == crate::code::operand_lo(9999));
                            assert(st6.code[jmp + 2] == st5.code[jmp + 2]);
                            lemma_compile_stmts_grows(alternative, st6);
                            match compile_stmts_spec(alternative, st6) {
                                Err(_) => {},
                                Ok(st7) => {
                                    assert(st7.code.take(st6.code.len() as int)[jmp + 2]
                                        == st6.code[jmp + 2]);
                                    assert(st7.code[jmp + 2] == st6.code[jmp + 2]);
                                    assert(st7.code.last() == st7.code[st7.code.len() - 1]);
                                    let st8 = CompState {
                                        code: without_trailing_pop(st7.code),
                                        ..st7
                                    };
                                    assert(st8.code.len() >= st6.code.len()) by {
                                        if ends_with_pop(st7.code) {
                                            if st7.code.len() == st6.code.len() {
                                                assert(st7.code =~= st6.code);
                                            }
                                        }
                                    }
                                    assert(st8.code.take(st6.code.len() as int) =~= st6.code);
                                    if st8.code.len() <= 0xFFFF {
                                        let patched = splice(
                                            st8.code,
                                            jmp,
                                            encode_spec(OpCode::OpJmp(st8.code.len() as u16)),
                                        );
                                        assert(patched.len() == st8.code.len());
                                        assert(patched.take(st.code.len() as int) =~= st.code);
                                        assert(st8.consts.take(st.consts.len() as int)
                                            =~= st.consts);
                                    }
                                },
                            }
                        }
                    }
                },
            }
        },
    }
}

/// The compiler: owns the bytecode being built and the symbol table that
/// assigns global slots.
pub struct Compiler {
    byte_code: ByteCode,
    symbol_table: SymbolTable,
}

impl View for Compiler {
    type V = CompState;

    closed spec fn view(&self) -> CompState {
        CompState {
            code: self.byte_code.instructions@,
            consts: objs_view(self.byte_code.constants@),
            syms: self.symbol_table@,
        }
    }
}

impl Compiler {
    /// Add a value to the constant pool and return its index.
    fn add_constant(&mut self, object: Object) -> (r: u16)
        requires
            old(self)@.consts.len() <= 0xFFFF,
        ensures
            final(self)@.consts == old(self)@.consts.push(obj_view(object)),
            final(self)@.code == old(self)@.code,
            final(self)@.syms == old(self)@.syms,
            r == old(self)@.consts.len(),
    {
        let ghost pre = self.byte_code.constants@;
        proof {
            crate::evaluator::lemma_objs_view_len(pre);
        }
        self.byte_code.constants.push(object);
        proof {
            crate::evaluator::lemma_objs_view_push(pre, object);
        }
        (self.byte_code.constants.len() - 1) as u16
    }

    /// Append one encoded instruction and return the byte offset where it
    /// was written.
    fn add_instruction(&mut self, op_code: OpCode) -> (r: u16)
        ensures
            final(self)@.code == old(self)@.code + encode_spec(op_code),
            final(self)@.consts == old(self)@.consts,
            final(self)@.syms == old(self)@.syms,
            old(self)@.code.len() <= u16::MAX ==> r == old(self)@.code.len(),
    {
        let new_instruction_position = self.byte_code.instructions.len();
        let mut op_bytes = make_op(op_code);
        self.byte_code.instructions.append(&mut op_bytes);
        #[verifier::truncate]
        (new_instruction_position as u16)
    }

    /// Whether the last emitted byte is the `Pop` opcode's tag.
    fn is_last_instruction_pop(&self) -> (r: bool)
        ensures
            r == ends_with_pop(self@.code),
    {
        let n = self.byte_code.instructions.len();
        if n == 0 {
            false
        } else {
            self.byte_code.instructions[n - 1] == 0x06
        }
    }

    /// Drop the trailing `Pop` so a block's final value stays on the stack.
    fn remove_last_pop(&mut self)
        requires
            old(self)@.code.len() > 0,
        ensures
            final(self)@.code == old(self)@.code.drop_last(),
            final(self)@.consts == old(self)@.consts,
            final(self)@.syms == old(self)@.syms,
    {
        self.byte_code.instructions.pop();
    }

    /// Overwrite the instruction at `pos` in place; valid only for an
    /// opcode whose encoded width matches what stands there.
    fn replace_op(&mut self, pos: usize, opcode: OpCode)
        requires
            pos + encode_spec(opcode).len() <= old(self)@.code.len(),
        ensures
            final(self)@.code == splice(old(self)@.code, pos as int, encode_spec(opcode)),
            final(self)@.consts == old(self)@.consts,
            final(self)@.syms == old(self)@.syms,
    {
        let ghost pre = self.byte_code.instructions@;
        let ghost pre_consts = self.byte_code.constants@;
        let ghost pre_syms = self.symbol_table@;
        let bytes = make_op(opcode);
        let mut i: usize = 0;
        while i < bytes.len()
            invariant
                i <= bytes@.len(),
                bytes@ == encode_spec(opcode),
                pos + bytes@.len() <= pre.len(),
                self.byte_code.instructions@.len() == pre.len(),
                self.byte_code.instructions@ == pre.take(pos as int) + bytes@.take(i as int)
                    + pre.skip(pos + i),
                self.byte_code.constants@ == pre_consts,
                self.symbol_table@ == pre_syms,
            decreases bytes@.len() - i,
        {
            let n = self.byte_code.instructions.len();
            proof {
                assert(i < bytes@.len());
                assert(pos + i < n);
            }
            let b = bytes[i];
            self.byte_code.instructions.set(pos + i, b);
            i += 1;
            proof {
                assert(self.byte_code.instructions@ =~= pre.take(pos as int) + bytes@.take(
                    i as int,
                ) + pre.skip(pos + i));
            }
        }
        proof {
            assert(self.byte_code.instructions@ =~= splice(pre, pos as int, encode_spec(opcode)));
        }
    }

    /// Compile a statement sequence in order.
    fn compile_statements(&mut self, ast: Vec<Statement>) -> (r: Result<(), CompileError>)
        ensures
            ({
                let sp = compile_stmts_spec(stmts_view(ast@), old(self)@);
                match (sp, r) {
                    (Ok(st), Ok(u)) => final(self)@ == st,
                    (Err(a), Err(b)) => a == b,
                    _ => false,
                }
            }),
        decreases stmts_height(stmts_view(ast@)), 2int,
    {
        let mut ast = ast;
        if ast.len() == 0 {
            return Ok(());
        }
        let ghost pre_ast = ast@;
        let stmt = ast.remove(0);
        proof {
            assert(ast@ =~= pre_ast.subrange(1, pre_ast.len() as int));
            crate::parser::lemma_stmts_view_tail(pre_ast);
            assert(stmts_view(pre_ast) == seq![stmt_view(stmt)] + stmts_view(ast@));
            assert(stmts_view(pre_ast).subrange(1, stmts_view(pre_ast).len() as int)
                =~= stmts_view(ast@));
            assert(stmts_height(stmts_view(pre_ast)) == 1 + stmt_height(stmt_view(stmt))
                + stmts_height(stmts_view(ast@)));
        }
        match self.compile_statement(stmt) {
            Ok(_) => {},
            Err(e) => {
                return Err(e);
            },
        }
        self.compile_statements(ast)
    }

    /// Compile one statement: its value code, then the `Pop` or `SetGlobal`
    /// that disposes of the value.
    fn compile_statement(&mut self, statement: Statement) -> (r: Result<(), CompileError>)
        ensures
            ({
                let sp = compile_stmt_spec(stmt_view(statement), old(self)@);
                match (sp, r) {
                    (Ok(st), Ok(u)) => final(self)@ == st,
                    (Err(a), Err(b)) => a == b,
                    _ => false,
                }
            }),
        decreases stmt_height(stmt_view(statement)), 1int,
    {
        match statement {
            Statement::ExpressionStatement(expr) => {
                match self.compile_expression(expr) {
                    Ok(_) => {},
                    Err(e) => {
                        return Err(e);
                    },
                }
                self.add_instruction(OpCode::OpPop);
                proof {
                    assert(final(self)@ =~= (match compile_stmt_spec(
                        stmt_view(statement),
                        old(self)@,
                    ) {
                        Ok(st) => st,
                        Err(_) => final(self)@,
                    }));
                }
                Ok(())
            },
            Statement::Let { name, value } => {
                match self.compile_expression(value) {
                    Ok(_) => {},
                    Err(e) => {
                        return Err(e);
                    },
                }
                if self.symbol_table.next_index() == u16::MAX {
                    return Err(CompileError::TooManyGlobals);
                }
                let symbol_index = self.symbol_table.define(name, GLOBAL.to_owned());
                proof {
                    reveal_strlit("GLOBAL");
                    assert(("GLOBAL")@ =~= global_scope());
                }
                self.add_instruction(OpCode::OpSetGlobal(symbol_index));
                proof {
                    assert(final(self)@ =~= (match compile_stmt_spec(
                        stmt_view(statement),
                        old(self)@,
                    ) {
                        Ok(st) => st,
                        Err(_) => final(self)@,
                    }));
                }
                Ok(())
            },
            Statement::Return { value } => Err(CompileError::UnsupportedStatement),
        }
    }

    /// Compile one expression: code that leaves its value on the stack.
    fn compile_expression(&mut self, expr: Expression) -> (r: Result<(), CompileError>)
        ensures
            ({
                let sp = compile_expr_spec(expr_view(expr), old(self)@);
                match (sp, r) {
                    (Ok(st), Ok(u)) => final(self)@ == st,
                    (Err(a), Err(b)) => a == b,
                    _ => false,
                }
            }),
        decreases expr_height(expr_view(expr)), 0int,
    {
        match expr {
            Expression::Int(val) => {
                proof {
                    crate::evaluator::lemma_objs_view_len(self.byte_code.constants@);
                }
                if self.byte_code.constants.len() > 0xFFFF {
                    return Err(CompileError::TooManyConstants);
                }
                let index = self.add_constant(Object::Int(val));
                self.add_instruction(OpCode::OpConstant(index));
                proof {
                    assert(final(self)@ =~= (match compile_expr_spec(
                        expr_view(expr),
                        old(self)@,
                    ) {
                        Ok(st) => st,
                        Err(_) => final(self)@,
                    }));
                }
                Ok(())
            },
            Expression::Boolean(val) => {
                if val {
                    self.add_instruction(OpCode::OpTrue);
                } else {
                    self.add_instruction(OpCode::OpFalse);
                }
                proof {
                    assert(final(self)@ =~= (match compile_expr_spec(
                        expr_view(expr),
                        old(self)@,
                    ) {
                        Ok(st) => st,
                        Err(_) => final(self)@,
                    }));
                }
                Ok(())
            },
            Expression::Infix { left, op, right } => {
                match self.compile_expression(*left) {
                    Ok(_) => {},
                    Err(e) => {
                        return Err(e);
                    },
                }
                match self.compile_expression(*right) {
                    Ok(_) => {},
                    Err(e) => {
                        return Err(e);
                    },
                }
                let op_code = match op {
                    Operator::PLUS => OpCode::OpAdd,
                    Operator::MINUS => OpCode::OpSub,
                    Operator::MULTIPLY => OpCode::OpMul,
                    Operator::DIVIDE => OpCode::OpDiv,
                    Operator::GREATER => OpCode::OpGreater,
                    Operator::LESS => OpCode::OpLess,
                    Operator::EQUAL => OpCode::OpEqual,
                    Operator::NEQUAL => OpCode::OpNotEqual,
                };
                self.add_instruction(op_code);
                Ok(())
            },
            Expression::Prefix { prefix, value } => {
                match self.compile_expression(*value) {
                    Ok(_) => {},
                    Err(e) => {
                        return Err(e);
                    },
                }
                match prefix {
                    Prefix::MINUS => self.add_instruction(OpCode::OpMinus),
                    Prefix::BANG => self.add_instruction(OpCode::OpBang),
                };
                Ok(())
            },
            Expression::If { condition, consequence, alternative } => self.compile_if(
                *condition,
                consequence,
                alternative,
            ),
            Expression::Ident(name) => {
                match self.symbol_table.resolve(name) {
                    Some(slot) => {
                        self.add_instruction(OpCode::OpGetGlobal(slot));
                        Ok(())
                    },
                    None => Err(CompileError::UndefinedVariable),
                }
            },
            Expression::String(_) => Err(CompileError::UnsupportedExpression),
            Expression::FnLiteral { parameters, body } => Err(
                CompileError::UnsupportedExpression,
            ),
            Expression::FnCall { function, args } => Err(CompileError::UnsupportedExpression),
        }
    }

    /// Compile a conditional, patching its forward jumps once their targets
    /// are known.
    #[verifier::rlimit(100)]
    fn compile_if(
        &mut self,
        condition: Expression,
        consequence: Vec<Statement>,
        alternative: Vec<Statement>,
    ) -> (r: Result<(), CompileError>)
        ensures
            ({
                let sp = compile_if_spec(
                    expr_view(condition),
                    stmts_view(consequence@),
                    stmts_view(alternative@),
                    old(self)@,
                );
                match (sp, r) {
                    (Ok(st), Ok(u)) => final(self)@ == st,
                    (Err(a), Err(b)) => a == b,
                    _ => false,
                }
            }),
        decreases expr_height(expr_view(condition)) + stmts_height(stmts_view(consequence@))
            + stmts_height(stmts_view(alternative@)), 3int,
    {
        match self.compile_expression(condition) {
            Ok(_) => {},
            Err(e) => {
                return Err(e);
            },
        }
        let ghost st1 = self@;
        let jmp_false = self.byte_code.instructions.len();
        self.add_instruction(OpCode::OpJmpIfFalse(9999));
        let ghost st2 = self@;
        match self.compile_statements(consequence) {
            Ok(_) => {},
            Err(e) => {
                return Err(e);
            },
        }
        let ghost st3 = self@;
        proof {
            lemma_compile_stmts_grows(stmts_view(consequence@), st2);
            crate::code::lemma_encode_unfold(OpCode::OpJmpIfFalse(9999));
            assert(crate::code::operand_lo(9999) == 0x0Fu8);
            assert(st2.code.last() == 0x0Fu8);
            if ends_with_pop(st3.code) && st3.code.len() == st2.code.len() {
                assert(st3.code =~= st2.code);
            }
        }
        if self.is_last_instruction_pop() {
            self.remove_last_pop();
        }
        let ghost st4 = self@;
        proof {
            assert(st4.code == without_trailing_pop(st3.code));
            assert(st4.code.len() >= st2.code.len());
            assert(st4.code.take(st2.code.len() as int) =~= st2.code);
        }
        if alternative.len() == 0 {
            let cur = self.byte_code.instructions.len();
            if cur > 0xFFFF {
                return Err(CompileError::CodeTooLong);
            }
            let new_jmp_pos = cur as u16;
            proof {
                assert(jmp_false + 3 <= st4.code.len());
                assert(stmts_view(alternative@).len() == 0);
            }
            self.replace_op(jmp_false, OpCode::OpJmpIfFalse(new_jmp_pos));
            proof {
                assert(final(self)@ =~= (match compile_if_spec(
                    expr_view(condition),
                    stmts_view(consequence@),
                    stmts_view(alternative@),
                    old(self)@,
                ) {
                    Ok(st) => st,
                    Err(_) => final(self)@,
                }));
            }
            Ok(())
        } else {
            proof {
                assert(stmts_view(alternative@).len() > 0);
            }
            let jmp = self.byte_code.instructions.len();
            self.add_instruction(OpCode::OpJmp(9999));
            let ghost st5 = self@;
            let jmp_false_pos = self.byte_code.instructions.len();
            if jmp_false_pos > 0xFFFF {
                return Err(CompileError::CodeTooLong);
            }
            proof {
                assert(jmp_false + 3 <= st5.code.len());
            }
            self.replace_op(jmp_false, OpCode::OpJmpIfFalse(jmp_false_pos as u16));
            let ghost st6 = self@;
            match self.compile_statements(alternative) {
                Ok(_) => {},
                Err(e) => {
                    return Err(e);
                },
            }
            let ghost st7 = self@;
            proof {
                lemma_compile_stmts_grows(stmts_view(alternative@), st6);
                crate::code::lemma_encode_unfold(OpCode::OpJmp(9999));
                crate::code::lemma_encode_unfold(OpCode::OpJmpIfFalse(jmp_false_pos as u16));
                assert(st6.code[jmp + 2] == st5.code[jmp + 2]);
                assert(st6.code[jmp + 2] == crate::code::operand_lo(9999));
                assert(st7.code.take(st6.code.len() as int)[jmp + 2] == st6.code[jmp + 2]);
                assert(st7.code[jmp + 2] == st6.code[jmp + 2]);
                if ends_with_pop(st7.code) && st7.code.len() == st6.code.len() {
                    assert(st7.code =~= st6.code);
                }
            }
            if self.is_last_instruction_pop() {
                self.remove_last_pop();
            }
            let ghost st8 = self@;
            proof {
                assert(st8.code == without_trailing_pop(st7.code));
                assert(st8.code.len() >= st6.code.len());
                assert(st8.code.take(st6.code.len() as int) =~= st6.code);
            }
            let jmp_pos = self.byte_code.instructions.len();
            if jmp_pos > 0xFFFF {
                return Err(CompileError::CodeTooLong);
            }
            proof {
                assert(jmp + 3 <= st8.code.len());
            }
            self.replace_op(jmp, OpCode::OpJmp(jmp_pos as u16));
            proof {
                assert(final(self)@ =~= (match compile_if_spec(
                    expr_view(condition),
                    stmts_view(consequence@),
                    stmts_view(alternative@),
                    old(self)@,
                ) {
                    Ok(st) => st,
                    Err(_) => final(self)@,
                }));
            }
            Ok(())
        }
    }

    /// Tokenize, parse and compile source text into a bytecode artifact.
    pub fn from_source(input: &str) -> (r: Result<ByteCode, CompileError>)
        ensures
            ({
                let toks = crate::lexer::lex_spec(input@, 0);
                match parse_spec(toks) {
                    Err(pe) => r == Err::<ByteCode, CompileError>(CompileError::Parse(pe)),
                    Ok(p) => match compile_stmts_spec(p.0, init_state()) {
                        Ok(st) => match r {
                            Ok(bc) => bc.instructions@ == st.code && objs_view(bc.constants@)
                                == st.consts,
                            Err(_) => false,
                        },
                        Err(ce) => r == Err::<ByteCode, CompileError>(ce),
                    },
                }
            }),
    {
        let mut compiler = Compiler { byte_code: ByteCode::new(), symbol_table: SymbolTable::new() };
        proof {
            assert(objs_view(Seq::<Object>::empty()) =~= Seq::<ObjView>::empty());
            assert(compiler@ =~= init_state());
        }
        let mut tokens = lexer(input);
        let ast = match parse(&mut tokens) {
            Ok(a) => a,
            Err(e) => {
                return Err(CompileError::Parse(e));
            },
        };
        match compiler.compile_statements(ast) {
            Ok(_) => {},
            Err(e) => {
                return Err(e);
            },
        }
        Ok(compiler.byte_code)
    }
}

} // verus!
