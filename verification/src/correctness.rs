//! Agreement between the two execution strategies: running compiled
//! bytecode on the virtual machine yields the value that evaluating the
//! same expression directly yields.

use crate::compiler::{
    compile_expr_spec, compile_stmt_spec, compile_stmts_spec, init_state, lemma_compile_expr_grows,
    CompState, CompileError,
};
use crate::code::{
    decode_operand_spec, encode_spec, lemma_encode_unfold, lemma_operand_round_trip, OpCode,
};
use crate::evaluator::{eval_expr_spec, wrap_div, EvalError, ObjView};
use crate::parser::{ExprView, Operator, Prefix, StmtView};
use crate::vm::{vm_init_state, vm_run, vm_step, RunOutcome, StepResult, VmState, STACK_SIZE, VM_STEP_LIMIT};
use vstd::prelude::*;

verus! {

/// An integer-arithmetic expression: integer literals combined with
/// negation and the four arithmetic operators.
pub open spec fn is_arith_expr(e: ExprView) -> bool
    decreases e,
{
    match e {
        ExprView::Int(_) => true,
        ExprView::Prefix { prefix, value } => prefix == Prefix::MINUS && is_arith_expr(*value),
        ExprView::Infix { left, op, right } => (op == Operator::PLUS || op == Operator::MINUS
            || op == Operator::MULTIPLY || op == Operator::DIVIDE) && is_arith_expr(*left)
            && is_arith_expr(*right),
        _ => false,
    }
}

/// The value of an integer-arithmetic expression under wrapping arithmetic
/// and truncating division.
pub open spec fn arith_value(e: ExprView) -> Result<i64, EvalError>
    decreases e,
{
    match e {
        ExprView::Int(v) => Ok(v),
        ExprView::Prefix { prefix, value } => match arith_value(*value) {
            Ok(a) => Ok((0 as i64).wrapping_sub(a)),
            Err(er) => Err(er),
        },
        ExprView::Infix { left, op, right } => match arith_value(*left) {
            Ok(a) => match arith_value(*right) {
                Ok(b) => match op {
                    Operator::PLUS => Ok(a.wrapping_add(b)),
                    Operator::MINUS => Ok(a.wrapping_sub(b)),
                    Operator::MULTIPLY => Ok(a.wrapping_mul(b)),
                    Operator::DIVIDE => if b == 0 {
                        Err(EvalError::DivisionByZero)
                    } else {
                        Ok(wrap_div(a, b))
                    },
                    _ => Err(EvalError::TypeMismatch),
                },
                Err(er) => Err(er),
            },
            Err(er) => Err(er),
        },
        _ => Err(EvalError::TypeMismatch),
    }
}

/// The stack headroom evaluating an arithmetic expression needs: the left
/// operand stays on the stack while the right one is computed.
pub open spec fn arith_stack_need(e: ExprView) -> nat
    decreases e,
{
    match e {
        ExprView::Prefix { prefix, value } => arith_stack_need(*value),
        ExprView::Infix { left, op, right } => {
            let l = arith_stack_need(*left);
            let r = 1 + arith_stack_need(*right);
            if l >= r {
                l
            } else {
                r
            }
        },
        _ => 1,
    }
}

/// Direct evaluation agrees with `arith_value` on arithmetic expressions,
/// and leaves the environment unchanged.
pub proof fn lemma_arith_eval_agrees(e: ExprView, env: Map<Seq<char>, ObjView>, fuel: nat)
    requires
        is_arith_expr(e),
    ensures
        eval_expr_spec(e, env, fuel) == (match arith_value(e) {
            Ok(v) => Ok::<(ObjView, Map<Seq<char>, ObjView>), EvalError>((ObjView::Int(v), env)),
            Err(er) => Err::<(ObjView, Map<Seq<char>, ObjView>), EvalError>(er),
        }),
    decreases e,
{
    match e {
        ExprView::Int(_) => {},
        ExprView::Prefix { prefix, value } => {
            lemma_arith_eval_agrees(*value, env, fuel);
        },
        ExprView::Infix { left, op, right } => {
            lemma_arith_eval_agrees(*left, env, fuel);
            lemma_arith_eval_agrees(*right, env, fuel);
        },
        _ => {},
    }
}

/// The machine reaches `s2` from `s1` in exactly `n` successful steps.
pub open spec fn steps_to(
    code: Seq<u8>,
    consts: Seq<ObjView>,
    s1: VmState,
    s2: VmState,
    n: nat,
) -> bool
    decreases n,
{
    if n == 0 {
        s1 == s2
    } else {
        0 <= s1.ip < code.len() && match vm_step(code, consts, s1) {
            StepResult::Next(mid) => steps_to(code, consts, mid, s2, (n - 1) as nat),
            StepResult::Fail(_, _) => false,
        }
    }
}

/// Step sequences compose.
pub proof fn lemma_steps_to_trans(
    code: Seq<u8>,
    consts: Seq<ObjView>,
    s1: VmState,
    s2: VmState,
    s3: VmState,
    n1: nat,
    n2: nat,
)
    requires
        steps_to(code, consts, s1, s2, n1),
        steps_to(code, consts, s2, s3, n2),
    ensures
        steps_to(code, consts, s1, s3, (n1 + n2) as nat),
    decreases n1,
{
    if n1 == 0 {
    } else {
        match vm_step(code, consts, s1) {
            StepResult::Next(mid) => {
                lemma_steps_to_trans(code, consts, mid, s2, s3, (n1 - 1) as nat, n2);
            },
            StepResult::Fail(_, _) => {},
        }
    }
}

/// A bounded run from the start of a step sequence is the bounded run from
/// its end, with the steps spent.
pub proof fn lemma_steps_to_run(
    code: Seq<u8>,
    consts: Seq<ObjView>,
    s1: VmState,
    s2: VmState,
    n: nat,
    steps: nat,
)
    requires
        steps_to(code, consts, s1, s2, n),
        n <= steps,
    ensures
        vm_run(code, consts, s1, steps) == vm_run(code, consts, s2, (steps - n) as nat),
    decreases n,
{
    if n == 0 {
    } else {
        match vm_step(code, consts, s1) {
            StepResult::Next(mid) => {
                lemma_steps_to_run(code, consts, mid, s2, (n - 1) as nat, (steps - 1) as nat);
            },
            StepResult::Fail(_, _) => {},
        }
    }
}

/// Running the compiled form of an arithmetic expression from any state
/// pushes exactly the expression's value, consuming one step per emitted
/// instruction.
proof fn lemma_arith_expr_execution(
    e: ExprView,
    st: CompState,
    stc: CompState,
    code: Seq<u8>,
    consts: Seq<ObjView>,
    vs: VmState,
    v: i64,
)
    requires
        is_arith_expr(e),
        arith_value(e) == Ok::<i64, EvalError>(v),
        compile_expr_spec(e, st) == Ok::<CompState, CompileError>(stc),
        stc.code.len() <= code.len(),
        forall|i: int| st.code.len() <= i < stc.code.len() ==> code[i] == stc.code[i],
        stc.consts.len() <= consts.len(),
        forall|i: int| 0 <= i < stc.consts.len() ==> consts[i] == stc.consts[i],
        vs.ip == st.code.len(),
        vs.stack.len() + arith_stack_need(e) <= STACK_SIZE,
    ensures
        exists|n: nat|
            n <= stc.code.len() - st.code.len() && steps_to(
                code,
                consts,
                vs,
                VmState { ip: stc.code.len() as int, stack: vs.stack.push(ObjView::Int(v)), ..vs },
                n,
            ),
    decreases e,
{
    lemma_compile_expr_grows(e, st);
    let target = VmState {
        ip: stc.code.len() as int,
        stack: vs.stack.push(ObjView::Int(v)),
        ..vs
    };
    match e {
        ExprView::Int(w) => {
            let idx = (st.consts.len() as u16);
            lemma_encode_unfold(OpCode::OpConstant(idx));
            lemma_operand_round_trip(idx);
            assert(code[vs.ip] == 0x01);
            assert(code[vs.ip + 1] == crate::code::operand_hi(idx));
            assert(code[vs.ip + 2] == crate::code::operand_lo(idx));
            assert(decode_operand_spec(code[vs.ip + 1], code[vs.ip + 2]) == idx);
            assert(consts[idx as int] == stc.consts[idx as int]);
            assert(stc.consts[idx as int] == ObjView::Int(w));
            let stepped = vm_step(code, consts, vs);
            assert(stepped == StepResult::Next(target)) by {
                match stepped {
                    StepResult::Next(s2) => {
                        assert(s2 =~= target);
                    },
                    StepResult::Fail(_, _) => {},
                }
            }
            assert(steps_to(code, consts, target, target, 0));
            assert(steps_to(code, consts, vs, target, 1));
            assert(1 <= stc.code.len() - st.code.len());
        },
        ExprView::Prefix { prefix, value } => {
            let sub = compile_expr_spec(*value, st);
            match sub {
                Ok(st1) => {
                    let a = (match arith_value(*value) {
                        Ok(a) => a,
                        Err(_) => 0,
                    });
                    assert(arith_value(*value) == Ok::<i64, EvalError>(a));
                    lemma_compile_expr_grows(*value, st);
                    assert(forall|i: int|
                        st.code.len() <= i < st1.code.len() ==> code[i] == #[trigger] st1.code[i])
                        by {
                        assert(forall|i: int|
                            st.code.len() <= i < st1.code.len() ==> stc.code[i]
                                == #[trigger] st1.code[i]);
                    }
                    lemma_arith_expr_execution(*value, st, st1, code, consts, vs, a);
                    let n1 = choose|n: nat|
                        n <= st1.code.len() - st.code.len() && steps_to(
                            code,
                            consts,
                            vs,
                            VmState {
                                ip: st1.code.len() as int,
                                stack: vs.stack.push(ObjView::Int(a)),
                                ..vs
                            },
                            n,
                        );
                    let s1 = VmState {
                        ip: st1.code.len() as int,
                        stack: vs.stack.push(ObjView::Int(a)),
                        ..vs
                    };
                    lemma_encode_unfold(OpCode::OpMinus);
                    assert(code[s1.ip] == 0x0e);
                    let stepped = vm_step(code, consts, s1);
                    assert(s1.stack.last() == ObjView::Int(a));
                    assert(s1.stack.drop_last() =~= vs.stack);
                    assert(stepped == StepResult::Next(target)) by {
                        match stepped {
                            StepResult::Next(s2) => {
                                assert(s2 =~= target);
                            },
                            StepResult::Fail(_, _) => {},
                        }
                    }
                    assert(steps_to(code, consts, target, target, 0));
                    assert(steps_to(code, consts, s1, target, 1));
                    lemma_steps_to_trans(code, consts, vs, s1, target, n1, 1);
                    assert((n1 + 1) as nat <= stc.code.len() - st.code.len());
                },
                Err(_) => {},
            }
        },
        ExprView::Infix { left, op, right } => {
            let subl = compile_expr_spec(*left, st);
            match subl {
                Ok(st1) => {
                    let subr = compile_expr_spec(*right, st1);
                    match subr {
                        Ok(st2) => {
                            let a = (match arith_value(*left) {
                                Ok(a) => a,
                                Err(_) => 0,
                            });
                            let b = (match arith_value(*right) {
                                Ok(b) => b,
                                Err(_) => 0,
                            });
                            assert(arith_value(*left) == Ok::<i64, EvalError>(a));
                            assert(arith_value(*right) == Ok::<i64, EvalError>(b));
                            lemma_compile_expr_grows(*left, st);
                            lemma_compile_expr_grows(*right, st1);
                            assert(forall|i: int|
                                st.code.len() <= i < st1.code.len() ==> code[i]
                                    == #[trigger] st1.code[i]) by {
                                assert(forall|i: int|
                                    st.code.len() <= i < st1.code.len() ==> stc.code[i]
                                        == #[trigger] st1.code[i]) by {
                                    assert(forall|i: int|
                                        st.code.len() <= i < st1.code.len() ==> st2.code[i]
                                            == #[trigger] st1.code[i]);
                                }
                            }
                            assert(forall|i: int|
                                st1.code.len() <= i < st2.code.len() ==> code[i]
                                    == #[trigger] st2.code[i]) by {
                                assert(forall|i: int|
                                    st1.code.len() <= i < st2.code.len() ==> stc.code[i]
                                        == #[trigger] st2.code[i]);
                            }
                            lemma_arith_expr_execution(*left, st, st1, code, consts, vs, a);
                            let s1 = VmState {
                                ip: st1.code.len() as int,
                                stack: vs.stack.push(ObjView::Int(a)),
                                ..vs
                            };
                            let n1 = choose|n: nat|
                                n <= st1.code.len() - st.code.len() && steps_to(
                                    code,
                                    consts,
                                    vs,
                                    s1,
                                    n,
                                );
                            lemma_arith_expr_execution(*right, st1, st2, code, consts, s1, b);
                            let s2 = VmState {
                                ip: st2.code.len() as int,
                                stack: s1.stack.push(ObjView::Int(b)),
                                ..s1
                            };
                            let n2 = choose|n: nat|
                                n <= st2.code.len() - st1.code.len() && steps_to(
                                    code,
                                    consts,
                                    s1,
                                    s2,
                                    n,
                                );
                            let oc = crate::compiler::infix_opcode(op);
                            lemma_encode_unfold(oc);
                            assert(code[s2.ip] == crate::code::op_tag(oc));
                            assert(s2.stack.len() == vs.stack.len() + 2);
                            assert(s2.stack.last() == ObjView::Int(b));
                            assert(s2.stack[s2.stack.len() - 2] == ObjView::Int(a));
                            assert(s2.stack.take(s2.stack.len() - 2) =~= vs.stack);
                            let stepped = vm_step(code, consts, s2);
                            assert(stepped == StepResult::Next(target)) by {
                                match stepped {
                                    StepResult::Next(s3) => {
                                        assert(s3 =~= target);
                                    },
                                    StepResult::Fail(_, _) => {},
                                }
                            }
                            assert(steps_to(code, consts, target, target, 0));
                            assert(steps_to(code, consts, s2, target, 1));
                            lemma_steps_to_trans(code, consts, vs, s1, s2, n1, n2);
                            lemma_steps_to_trans(code, consts, vs, s2, target, (n1 + n2) as nat, 1);
                            assert((n1 + n2 + 1) as nat <= stc.code.len() - st.code.len());
                        },
                        Err(_) => {},
                    }
                },
                Err(_) => {},
            }
        },
        _ => {},
    }
}

/// Execution-agreement law: for every integer-arithmetic expression that
/// compiles, running the compiled artifact on a fresh machine halts, and
/// the value its final `Pop` discards is exactly the value direct
/// evaluation yields, under the same wrapping arithmetic and truncating
/// division.
pub proof fn lemma_vm_matches_evaluation(
    e: ExprView,
    env: Map<Seq<char>, ObjView>,
    fuel: nat,
    v: i64,
    prog: CompState,
)
    requires
        is_arith_expr(e),
        arith_value(e) == Ok::<i64, EvalError>(v),
        arith_stack_need(e) <= STACK_SIZE,
        compile_stmts_spec(seq![StmtView::ExpressionStatement(e)], init_state()) == Ok::<
            CompState,
            CompileError,
        >(prog),
        prog.code.len() < VM_STEP_LIMIT,
    ensures
        eval_expr_spec(e, env, fuel) == Ok::<(ObjView, Map<Seq<char>, ObjView>), EvalError>(
            (ObjView::Int(v), env),
        ),
        ({
            let outcome = vm_run(
                prog.code,
                prog.consts,
                vm_init_state(),
                VM_STEP_LIMIT as nat,
            );
            match outcome {
                RunOutcome::Halted(st) => st.last == ObjView::Int(v) && st.stack.len() == 0,
                _ => false,
            }
        }),
{
    lemma_arith_eval_agrees(e, env, fuel);
    let ss = seq![StmtView::ExpressionStatement(e)];
    assert(ss.subrange(1, ss.len() as int) =~= Seq::<StmtView>::empty());
    assert(ss[0] == StmtView::ExpressionStatement(e));
    let stt = compile_stmt_spec(ss[0], init_state());
    match stt {
        Ok(st2) => {
            assert(compile_stmts_spec(Seq::<StmtView>::empty(), st2) == Ok::<
                CompState,
                CompileError,
            >(st2));
            assert(prog == st2);
        },
        Err(er) => {
            assert(compile_stmts_spec(ss, init_state()) == Err::<CompState, CompileError>(er));
            assert(false);
        },
    }
    match compile_expr_spec(e, init_state()) {
        Ok(st_e) => {
            lemma_encode_unfold(OpCode::OpPop);
            assert(prog.code =~= st_e.code + encode_spec(OpCode::OpPop));
            assert(prog.consts == st_e.consts);
            let vs0 = vm_init_state();
            lemma_arith_expr_execution(e, init_state(), st_e, prog.code, prog.consts, vs0, v);
            let s_val = VmState {
                ip: st_e.code.len() as int,
                stack: vs0.stack.push(ObjView::Int(v)),
                ..vs0
            };
            let n1 = choose|n: nat|
                n <= st_e.code.len() - init_state().code.len() && steps_to(
                    prog.code,
                    prog.consts,
                    vs0,
                    s_val,
                    n,
                );
            assert(prog.code[s_val.ip] == 0x06);
            let halted = VmState {
                ip: prog.code.len() as int,
                stack: s_val.stack.drop_last(),
                last: s_val.stack.last(),
                ..s_val
            };
            let stepped = vm_step(prog.code, prog.consts, s_val);
            assert(stepped == StepResult::Next(halted)) by {
                match stepped {
                    StepResult::Next(s2) => {
                        assert(s2 =~= halted);
                    },
                    StepResult::Fail(_, _) => {},
                }
            }
            assert(steps_to(prog.code, prog.consts, halted, halted, 0));
            assert(steps_to(prog.code, prog.consts, s_val, halted, 1));
            lemma_steps_to_trans(prog.code, prog.consts, vs0, s_val, halted, n1, 1);
            lemma_steps_to_run(
                prog.code,
                prog.consts,
                vs0,
                halted,
                (n1 + 1) as nat,
                VM_STEP_LIMIT as nat,
            );
            assert(halted.stack =~= Seq::<ObjView>::empty());
            assert(vm_run(prog.code, prog.consts, halted, (VM_STEP_LIMIT - (n1 + 1)) as nat)
                == RunOutcome::Halted(halted));
        },
        Err(_) => {
            assert(false);
        },
    }
}

/// The only failure integer arithmetic can produce is a zero divisor.
pub proof fn lemma_arith_err_is_div0(e: ExprView)
    requires
        is_arith_expr(e),
        arith_value(e) is Err,
    ensures
        arith_value(e) == Err::<i64, EvalError>(EvalError::DivisionByZero),
    decreases e,
{
    match e {
        ExprView::Prefix { prefix, value } => {
            lemma_arith_err_is_div0(*value);
        },
        ExprView::Infix { left, op, right } => {
            if arith_value(*left) is Err {
                lemma_arith_err_is_div0(*left);
            } else if arith_value(*right) is Err {
                lemma_arith_err_is_div0(*right);
            }
        },
        _ => {},
    }
}

/// A step sequence that reaches a failing state makes the whole bounded
/// run fail there.
pub proof fn lemma_steps_to_failure(
    code: Seq<u8>,
    consts: Seq<ObjView>,
    s1: VmState,
    sf: VmState,
    er: crate::vm::VmError,
    n: nat,
    steps: nat,
)
    requires
        steps_to(code, consts, s1, sf, n),
        n < steps,
        0 <= sf.ip < code.len(),
        vm_step(code, consts, sf) == StepResult::Fail(er, sf),
    ensures
        vm_run(code, consts, s1, steps) == RunOutcome::Failed(er, sf),
{
    lemma_steps_to_run(code, consts, s1, sf, n, steps);
}

/// Running the compiled form of an arithmetic expression that divides by
/// zero reaches a state whose next step fails with that error.
proof fn lemma_arith_expr_failure(
    e: ExprView,
    st: CompState,
    stc: CompState,
    code: Seq<u8>,
    consts: Seq<ObjView>,
    vs: VmState,
)
    requires
        is_arith_expr(e),
        arith_value(e) is Err,
        compile_expr_spec(e, st) == Ok::<CompState, CompileError>(stc),
        stc.code.len() <= code.len(),
        forall|i: int| st.code.len() <= i < stc.code.len() ==> code[i] == stc.code[i],
        stc.consts.len() <= consts.len(),
        forall|i: int| 0 <= i < stc.consts.len() ==> consts[i] == stc.consts[i],
        vs.ip == st.code.len(),
        vs.stack.len() + arith_stack_need(e) <= STACK_SIZE,
    ensures
        exists|n: nat, sf: VmState|
            n <= stc.code.len() - st.code.len() && steps_to(code, consts, vs, sf, n) && 0 <= sf.ip
                < code.len() && vm_step(code, consts, sf) == StepResult::Fail(
                crate::vm::VmError::DivisionByZero,
                sf,
            ),
    decreases e,
{
    lemma_compile_expr_grows(e, st);
    match e {
        ExprView::Int(_) => {},
        ExprView::Prefix { prefix, value } => {
            let st1 = (match compile_expr_spec(*value, st) {
                Ok(st1) => st1,
                Err(_) => st,
            });
            assert(compile_expr_spec(*value, st) == Ok::<CompState, CompileError>(st1));
            lemma_compile_expr_grows(*value, st);
            assert(forall|i: int|
                st.code.len() <= i < st1.code.len() ==> code[i] == #[trigger] st1.code[i]) by {
                assert(forall|i: int|
                    st.code.len() <= i < st1.code.len() ==> stc.code[i] == #[trigger] st1.code[i]);
            }
            lemma_arith_expr_failure(*value, st, st1, code, consts, vs);
            let (n1, sf) = choose|n: nat, sf: VmState|
                n <= st1.code.len() - st.code.len() && steps_to(code, consts, vs, sf, n) && 0
                    <= sf.ip < code.len() && vm_step(code, consts, sf) == StepResult::Fail(
                    crate::vm::VmError::DivisionByZero,
                    sf,
                );
            assert(n1 <= stc.code.len() - st.code.len());
        },
        ExprView::Infix { left, op, right } => {
            let st1 = (match compile_expr_spec(*left, st) {
                Ok(st1) => st1,
                Err(_) => st,
            });
            assert(compile_expr_spec(*left, st) == Ok::<CompState, CompileError>(st1));
            let st2 = (match compile_expr_spec(*right, st1) {
                Ok(st2) => st2,
                Err(_) => st1,
            });
            assert(compile_expr_spec(*right, st1) == Ok::<CompState, CompileError>(st2));
            lemma_compile_expr_grows(*left, st);
            lemma_compile_expr_grows(*right, st1);
            assert(forall|i: int|
                st.code.len() <= i < st1.code.len() ==> code[i] == #[trigger] st1.code[i]) by {
                assert(forall|i: int|
                    st.code.len() <= i < st1.code.len() ==> stc.code[i] == #[trigger] st1.code[i])
                    by {
                    assert(forall|i: int|
                        st.code.len() <= i < st1.code.len() ==> st2.code[i]
                            == #[trigger] st1.code[i]);
                }
            }
            assert(forall|i: int|
                st1.code.len() <= i < st2.code.len() ==> code[i] == #[trigger] st2.code[i]) by {
                assert(forall|i: int|
                    st1.code.len() <= i < st2.code.len() ==> stc.code[i] == #[trigger] st2.code[i]);
            }
            if arith_value(*left) is Err {
                lemma_arith_expr_failure(*left, st, st1, code, consts, vs);
                let (n1, sf) = choose|n: nat, sf: VmState|
                    n <= st1.code.len() - st.code.len() && steps_to(code, consts, vs, sf, n) && 0
                        <= sf.ip < code.len() && vm_step(code, consts, sf) == StepResult::Fail(
                        crate::vm::VmError::DivisionByZero,
                        sf,
                    );
                assert(n1 <= stc.code.len() - st.code.len());
            } else {
                let a = (match arith_value(*left) {
                    Ok(a) => a,
                    Err(_) => 0,
                });
                lemma_arith_expr_execution(*left, st, st1, code, consts, vs, a);
                let s1 = VmState {
                    ip: st1.code.len() as int,
                    stack: vs.stack.push(ObjView::Int(a)),
                    ..vs
                };
                let n1 = choose|n: nat|
                    n <= st1.code.len() - st.code.len() && steps_to(code, consts, vs, s1, n);
                if arith_value(*right) is Err {
                    lemma_arith_expr_failure(*right, st1, st2, code, consts, s1);
                    let (n2, sf) = choose|n: nat, sf: VmState|
                        n <= st2.code.len() - st1.code.len() && steps_to(code, consts, s1, sf, n)
                            && 0 <= sf.ip < code.len() && vm_step(code, consts, sf)
                            == StepResult::Fail(crate::vm::VmError::DivisionByZero, sf);
                    lemma_steps_to_trans(code, consts, vs, s1, sf, n1, n2);
                    assert((n1 + n2) as nat <= stc.code.len() - st.code.len());
                } else {
                    let b = (match arith_value(*right) {
                        Ok(b) => b,
                        Err(_) => 0,
                    });
                    lemma_arith_expr_execution(*right, st1, st2, code, consts, s1, b);
                    let s2 = VmState {
                        ip: st2.code.len() as int,
                        stack: s1.stack.push(ObjView::Int(b)),
                        ..s1
                    };
                    let n2 = choose|n: nat|
                        n <= st2.code.len() - st1.code.len() && steps_to(code, consts, s1, s2, n);
                    assert(op == Operator::DIVIDE && b == 0);
                    lemma_encode_unfold(OpCode::OpDiv);
                    assert(code[s2.ip] == 0x05);
                    assert(s2.stack.last() == ObjView::Int(b));
                    assert(s2.stack[s2.stack.len() - 2] == ObjView::Int(a));
                    let stepped = vm_step(code, consts, s2);
                    assert(stepped == StepResult::Fail(crate::vm::VmError::DivisionByZero, s2));
                    lemma_steps_to_trans(code, consts, vs, s1, s2, n1, n2);
                    assert((n1 + n2) as nat <= stc.code.len() - st.code.len());
                }
            }
        },
        _ => {},
    }
}

/// Execution-agreement law, failing direction: an integer-arithmetic
/// expression that divides by zero makes direct evaluation and the
/// compiled artifact's run fail with the same zero-divisor error.
pub proof fn lemma_vm_matches_evaluation_failure(
    e: ExprView,
    env: Map<Seq<char>, ObjView>,
    fuel: nat,
    prog: CompState,
)
    requires
        is_arith_expr(e),
        arith_value(e) is Err,
        arith_stack_need(e) <= STACK_SIZE,
        compile_stmts_spec(seq![StmtView::ExpressionStatement(e)], init_state()) == Ok::<
            CompState,
            CompileError,
        >(prog),
        prog.code.len() < VM_STEP_LIMIT,
    ensures
        eval_expr_spec(e, env, fuel) == Err::<(ObjView, Map<Seq<char>, ObjView>), EvalError>(
            EvalError::DivisionByZero,
        ),
        ({
            let outcome = vm_run(
                prog.code,
                prog.consts,
                vm_init_state(),
                VM_STEP_LIMIT as nat,
            );
            match outcome {
                RunOutcome::Failed(er, _) => er == crate::vm::VmError::DivisionByZero,
                _ => false,
            }
        }),
{
    lemma_arith_err_is_div0(e);
    lemma_arith_eval_agrees(e, env, fuel);
    let ss = seq![StmtView::ExpressionStatement(e)];
    assert(ss.subrange(1, ss.len() as int) =~= Seq::<StmtView>::empty());
    assert(ss[0] == StmtView::ExpressionStatement(e));
    let stt = compile_stmt_spec(ss[0], init_state());
    match stt {
        Ok(st2) => {
            assert(compile_stmts_spec(Seq::<StmtView>::empty(), st2) == Ok::<
                CompState,
                CompileError,
            >(st2));
            assert(prog == st2);
        },
        Err(er) => {
            assert(compile_stmts_spec(ss, init_state()) == Err::<CompState, CompileError>(er));
            assert(false);
        },
    }
    match compile_expr_spec(e, init_state()) {
        Ok(st_e) => {
            lemma_encode_unfold(OpCode::OpPop);
            assert(prog.code =~= st_e.code + encode_spec(OpCode::OpPop));
            assert(prog.consts == st_e.consts);
            let vs0 = vm_init_state();
            lemma_arith_expr_failure(e, init_state(), st_e, prog.code, prog.consts, vs0);
            let (n1, sf) = choose|n: nat, sf: VmState|
                n <= st_e.code.len() - init_state().code.len() && steps_to(
                    prog.code,
                    prog.consts,
                    vs0,
                    sf,
                    n,
                ) && 0 <= sf.ip < prog.code.len() && vm_step(prog.code, prog.consts, sf)
                    == StepResult::Fail(crate::vm::VmError::DivisionByZero, sf);
            lemma_steps_to_failure(
                prog.code,
                prog.consts,
                vs0,
                sf,
                crate::vm::VmError::DivisionByZero,
                n1,
                VM_STEP_LIMIT as nat,
            );
        },
        Err(_) => {
            assert(false);
        },
    }
}

/// A program of integer-arithmetic expression statements.
pub open spec fn is_arith_program(ss: Seq<StmtView>) -> bool
    decreases ss,
{
    if ss.len() == 0 {
        true
    } else {
        (match ss[0] {
            StmtView::ExpressionStatement(e) => is_arith_expr(e),
            _ => false,
        }) && is_arith_program(ss.subrange(1, ss.len() as int))
    }
}

/// Whether every statement of an arithmetic program evaluates without
/// error.
pub open spec fn arith_program_ok(ss: Seq<StmtView>) -> bool
    decreases ss,
{
    if ss.len() == 0 {
        true
    } else {
        (match ss[0] {
            StmtView::ExpressionStatement(e) => arith_value(e) is Ok,
            _ => false,
        }) && arith_program_ok(ss.subrange(1, ss.len() as int))
    }
}

/// The value of the last statement of an arithmetic program.
pub open spec fn arith_last_value(ss: Seq<StmtView>) -> i64
    decreases ss,
{
    if ss.len() == 0 {
        0
    } else if ss.len() == 1 {
        match ss[0] {
            StmtView::ExpressionStatement(e) => match arith_value(e) {
                Ok(v) => v,
                Err(_) => 0,
            },
            _ => 0,
        }
    } else {
        arith_last_value(ss.subrange(1, ss.len() as int))
    }
}

/// The stack headroom an arithmetic program needs: that of its widest
/// statement.
pub open spec fn arith_program_need(ss: Seq<StmtView>) -> nat
    decreases ss,
{
    if ss.len() == 0 {
        0
    } else {
        let h = (match ss[0] {
            StmtView::ExpressionStatement(e) => arith_stack_need(e),
            _ => 0,
        });
        let rest = arith_program_need(ss.subrange(1, ss.len() as int));
        if h >= rest {
            h
        } else {
            rest
        }
    }
}

/// Direct evaluation of a non-empty arithmetic program yields the value of
/// its last statement and leaves the environment unchanged.
pub proof fn lemma_arith_program_eval(ss: Seq<StmtView>, env: Map<Seq<char>, ObjView>, fuel: nat)
    requires
        is_arith_program(ss),
        arith_program_ok(ss),
        ss.len() > 0,
    ensures
        crate::evaluator::eval_stmts_spec(ss, env, fuel) == Ok::<
            (ObjView, Map<Seq<char>, ObjView>),
            EvalError,
        >((ObjView::Int(arith_last_value(ss)), env)),
    decreases ss,
{
    let stv = crate::evaluator::eval_stmt_spec(ss[0], env, fuel);
    match ss[0] {
        StmtView::ExpressionStatement(e) => {
            lemma_arith_eval_agrees(e, env, fuel);
            assert(stv == Ok::<(ObjView, Map<Seq<char>, ObjView>), EvalError>(
                (ObjView::Int(arith_last_value(seq![ss[0]])), env),
            ));
            if ss.len() > 1 {
                lemma_arith_program_eval(ss.subrange(1, ss.len() as int), env, fuel);
            }
        },
        _ => {},
    }
}

/// Running the compiled form of an arithmetic program executes each
/// statement in order, leaving the stack as it was and the last statement's
/// value as the value the final `Pop` discarded.
#[verifier::rlimit(100)]
proof fn lemma_arith_program_runs(
    ss: Seq<StmtView>,
    st: CompState,
    stc: CompState,
    code: Seq<u8>,
    consts: Seq<ObjView>,
    vs: VmState,
)
    requires
        is_arith_program(ss),
        arith_program_ok(ss),
        ss.len() > 0,
        compile_stmts_spec(ss, st) == Ok::<CompState, CompileError>(stc),
        stc.code.len() <= code.len(),
        forall|i: int| st.code.len() <= i < stc.code.len() ==> code[i] == stc.code[i],
        stc.consts.len() <= consts.len(),
        forall|i: int| 0 <= i < stc.consts.len() ==> consts[i] == stc.consts[i],
        vs.ip == st.code.len(),
        vs.stack.len() + arith_program_need(ss) <= STACK_SIZE,
    ensures
        exists|n: nat|
            n <= stc.code.len() - st.code.len() && steps_to(
                code,
                consts,
                vs,
                VmState {
                    ip: stc.code.len() as int,
                    stack: vs.stack,
                    globals: vs.globals,
                    last: ObjView::Int(arith_last_value(ss)),
                },
                n,
            ),
    decreases ss,
{
    crate::compiler::lemma_compile_stmts_grows(ss, st);
    let rest = ss.subrange(1, ss.len() as int);
    match ss[0] {
        StmtView::ExpressionStatement(e) => {
            let v = (match arith_value(e) {
                Ok(v) => v,
                Err(_) => 0,
            });
            match compile_expr_spec(e, st) {
                Ok(st_e) => {
                    let st_stmt = CompState {
                        code: st_e.code + encode_spec(OpCode::OpPop),
                        ..st_e
                    };
                    assert(compile_stmt_spec(ss[0], st) == Ok::<CompState, CompileError>(st_stmt));
                    lemma_compile_expr_grows(e, st);
                    crate::compiler::lemma_compile_stmts_grows(rest, st_stmt);
                    assert(forall|i: int|
                        st.code.len() <= i < st_stmt.code.len() ==> stc.code[i]
                            == #[trigger] st_stmt.code[i]);
                    assert(forall|i: int|
                        st.code.len() <= i < st_e.code.len() ==> code[i]
                            == #[trigger] st_e.code[i]) by {
                        assert(forall|i: int|
                            st.code.len() <= i < st_e.code.len() ==> st_stmt.code[i]
                                == #[trigger] st_e.code[i]);
                    }
                    assert(forall|i: int|
                        0 <= i < st_e.consts.len() ==> consts[i] == #[trigger] st_e.consts[i])
                        by {
                        assert(forall|i: int|
                            0 <= i < st_e.consts.len() ==> stc.consts[i]
                                == #[trigger] st_e.consts[i]);
                    }
                    lemma_arith_expr_execution(e, st, st_e, code, consts, vs, v);
                    let s_val = VmState {
                        ip: st_e.code.len() as int,
                        stack: vs.stack.push(ObjView::Int(v)),
                        ..vs
                    };
                    let n1 = choose|n: nat|
                        n <= st_e.code.len() - st.code.len() && steps_to(
                            code,
                            consts,
                            vs,
                            s_val,
                            n,
                        );
                    lemma_encode_unfold(OpCode::OpPop);
                    assert(code[s_val.ip] == 0x06) by {
                        assert(st_stmt.code[st_e.code.len() as int] == 0x06);
                    }
                    let s_done = VmState {
                        ip: st_stmt.code.len() as int,
                        stack: vs.stack,
                        globals: vs.globals,
                        last: ObjView::Int(v),
                    };
                    let stepped = vm_step(code, consts, s_val);
                    assert(stepped == StepResult::Next(s_done)) by {
                        assert(s_val.stack.drop_last() =~= vs.stack);
                        match stepped {
                            StepResult::Next(s2) => {
                                assert(s2 =~= s_done);
                            },
                            StepResult::Fail(_, _) => {},
                        }
                    }
                    assert(steps_to(code, consts, s_done, s_done, 0));
                    assert(steps_to(code, consts, s_val, s_done, 1));
                    lemma_steps_to_trans(code, consts, vs, s_val, s_done, n1, 1);
                    if rest.len() == 0 {
                        assert(compile_stmts_spec(rest, st_stmt) == Ok::<
                            CompState,
                            CompileError,
                        >(st_stmt));
                        assert(stc == st_stmt);
                        assert(arith_last_value(ss) == v);
                    } else {
                        lemma_arith_program_runs(rest, st_stmt, stc, code, consts, s_done);
                        let target = VmState {
                            ip: stc.code.len() as int,
                            stack: s_done.stack,
                            globals: s_done.globals,
                            last: ObjView::Int(arith_last_value(rest)),
                        };
                        let n2 = choose|n: nat|
                            n <= stc.code.len() - st_stmt.code.len() && steps_to(
                                code,
                                consts,
                                s_done,
                                target,
                                n,
                            );
                        lemma_steps_to_trans(
                            code,
                            consts,
                            vs,
                            s_done,
                            target,
                            (n1 + 1) as nat,
                            n2,
                        );
                        assert(arith_last_value(ss) == arith_last_value(rest));
                        assert((n1 + 1 + n2) as nat <= stc.code.len() - st.code.len());
                    }
                },
                Err(_) => {
                    assert(false);
                },
            }
        },
        _ => {
            assert(false);
        },
    }
}

/// Execution-agreement law for whole programs: for every sequence of
/// integer-arithmetic statements that compiles and evaluates without error,
/// running the compiled artifact on a fresh machine halts with an empty
/// stack, and the value its final `Pop` discarded is exactly the value
/// direct evaluation of the same program yields.
pub proof fn lemma_vm_matches_evaluation_program(
    ss: Seq<StmtView>,
    env: Map<Seq<char>, ObjView>,
    fuel: nat,
    prog: CompState,
)
    requires
        is_arith_program(ss),
        arith_program_ok(ss),
        ss.len() > 0,
        compile_stmts_spec(ss, init_state()) == Ok::<CompState, CompileError>(prog),
        arith_program_need(ss) <= STACK_SIZE,
        prog.code.len() < VM_STEP_LIMIT,
    ensures
        crate::evaluator::eval_spec(ss, env, fuel) == Ok::<
            (ObjView, Map<Seq<char>, ObjView>),
            EvalError,
        >((ObjView::Int(arith_last_value(ss)), env)),
        ({
            let outcome = vm_run(
                prog.code,
                prog.consts,
                vm_init_state(),
                VM_STEP_LIMIT as nat,
            );
            match outcome {
                RunOutcome::Halted(st) => st.last == ObjView::Int(arith_last_value(ss))
                    && st.stack.len() == 0,
                _ => false,
            }
        }),
{
    lemma_arith_program_eval(ss, env, fuel);
    let vs0 = vm_init_state();
    lemma_arith_program_runs(ss, init_state(), prog, prog.code, prog.consts, vs0);
    let halted = VmState {
        ip: prog.code.len() as int,
        stack: vs0.stack,
        globals: vs0.globals,
        last: ObjView::Int(arith_last_value(ss)),
    };
    let n = choose|n: nat|
        n <= prog.code.len() - init_state().code.len() && steps_to(
            prog.code,
            prog.consts,
            vs0,
            halted,
            n,
        );
    lemma_steps_to_run(prog.code, prog.consts, vs0, halted, n, VM_STEP_LIMIT as nat);
    assert(vm_run(prog.code, prog.consts, halted, (VM_STEP_LIMIT - n) as nat)
        == RunOutcome::Halted(halted));
}

} // verus!
