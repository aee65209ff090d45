//! The stack-machine virtual machine: executes a compiled instruction
//! stream against a fixed-capacity value stack and a global-value store.
//!
//! The dispatch loop reads the opcode at the instruction pointer, performs
//! the operation, and advances by the instruction\'s fixed width, or to a
//! jump\'s absolute target.  Stack overflow and underflow, an unknown or
//! truncated instruction, an out-of-range constant or global reference, a
//! type mismatch and a zero divisor are each reported as a distinct error;
//! equality instructions compare integers only, as the instruction set
//! defines them, while the tree-walking evaluator also compares booleans;
//! no failure is ever undefined behaviour.  A run is bounded by a step
//! budget large enough never to matter for terminating programs, which
//! makes the machine\'s behaviour a total mathematical function of the
//! artifact it was built from.

use crate::code::decode_operand_spec;
use crate::compiler::ByteCode;
use crate::evaluator::{duplicate, obj_view, objs_view, wrap_div, ObjView, Object};
use vstd::prelude::*;

verus! {

/// The number of value slots in the machine\'s stack.
pub const STACK_SIZE: usize = 2048;

/// The step budget of one run; no terminating program comes near it.
pub const VM_STEP_LIMIT: u64 = u64::MAX;

/// The error a run halts with.
#[derive(Debug, PartialEq, Eq, Structural, Clone, Copy)]
pub enum VmError {
    UnknownOpcode(u8),
    TruncatedInstruction,
    ConstantOutOfRange,
    StackOverflow,
    StackUnderflow,
    TypeMismatch,
    DivisionByZero,
    UndefinedGlobal,
    StepLimitExceeded,
}

/// The mathematical state of the machine: the instruction pointer, the
/// active stack, the global store, and the value the last `Pop` discarded.
#[verifier::ext_equal]
pub struct VmState {
    pub ip: int,
    pub stack: Seq<ObjView>,
    pub globals: Seq<ObjView>,
    pub last: ObjView,
}

/// What one dispatch step yields: the next state, or the error the machine
/// halts with, with the state at the failure.
pub enum StepResult {
    Next(VmState),
    Fail(VmError, VmState),
}

/// The global store after writing `v` at `slot`, growing the store with
/// null slots when `slot` is new.
pub open spec fn grow_set(g: Seq<ObjView>, slot: int, v: ObjView) -> Seq<ObjView> {
    if slot < g.len() {
        g.update(slot, v)
    } else {
        g + Seq::new((slot - g.len()) as nat, |i: int| ObjView::Null) + seq![v]
    }
}

/// One dispatch step at `st.ip`, which must point into the code.
pub open spec fn vm_step(code: Seq<u8>, consts: Seq<ObjView>, st: VmState) -> StepResult
    recommends
        0 <= st.ip < code.len(),
{
    let tag = code[st.ip];
    if tag == 0x01 {
        // Constant
        if st.ip + 3 > code.len() {
            StepResult::Fail(VmError::TruncatedInstruction, st)
        } else {
            let idx = decode_operand_spec(code[st.ip + 1], code[st.ip + 2]);
            if idx >= consts.len() {
                StepResult::Fail(VmError::ConstantOutOfRange, st)
            } else if st.stack.len() >= STACK_SIZE {
                StepResult::Fail(VmError::StackOverflow, st)
            } else {
                StepResult::Next(
                    VmState { ip: st.ip + 3, stack: st.stack.push(consts[idx]), ..st },
                )
            }
        }
    } else if tag == 0x02 || tag == 0x03 || tag == 0x04 || tag == 0x05 {
        // Add, Sub, Mul, Div
        if st.stack.len() < 2 {
            StepResult::Fail(VmError::StackUnderflow, st)
        } else {
            let right = st.stack.last();
            let left = st.stack[st.stack.len() - 2];
            match (left, right) {
                (ObjView::Int(a), ObjView::Int(b)) => {
                    if tag == 0x05 && b == 0 {
                        StepResult::Fail(VmError::DivisionByZero, st)
                    } else {
                        let v = if tag == 0x02 {
                            a.wrapping_add(b)
                        } else if tag == 0x03 {
                            a.wrapping_sub(b)
                        } else if tag == 0x04 {
                            a.wrapping_mul(b)
                        } else {
                            wrap_div(a, b)
                        };
                        StepResult::Next(
                            VmState {
                                ip: st.ip + 1,
                                stack: st.stack.take(st.stack.len() - 2).push(ObjView::Int(v)),
                                ..st
                            },
                        )
                    }
                },
                _ => StepResult::Fail(VmError::TypeMismatch, st),
            }
        }
    } else if tag == 0x06 {
        // Pop
        if st.stack.len() < 1 {
            StepResult::Fail(VmError::StackUnderflow, st)
        } else {
            StepResult::Next(
                VmState {
                    ip: st.ip + 1,
                    stack: st.stack.drop_last(),
                    last: st.stack.last(),
                    ..st
                },
            )
        }
    } else if tag == 0x07 || tag == 0x08 {
        // True, False
        if st.stack.len() >= STACK_SIZE {
            StepResult::Fail(VmError::StackOverflow, st)
        } else {
            StepResult::Next(
                VmState {
                    ip: st.ip + 1,
                    stack: st.stack.push(ObjView::Boolean(tag == 0x07)),
                    ..st
                },
            )
        }
    } else if tag == 0x09 || tag == 0x0a || tag == 0x0b || tag == 0x0c {
        // Greater, Less, Equal, NotEqual
        if st.stack.len() < 2 {
            StepResult::Fail(VmError::StackUnderflow, st)
        } else {
            let right = st.stack.last();
            let left = st.stack[st.stack.len() - 2];
            match (left, right) {
                (ObjView::Int(a), ObjView::Int(b)) => {
                    let v = if tag == 0x09 {
                        a > b
                    } else if tag == 0x0a {
                        a < b
                    } else if tag == 0x0b {
                        a == b
                    } else {
                        a != b
                    };
                    StepResult::Next(
                        VmState {
                            ip: st.ip + 1,
                            stack: st.stack.take(st.stack.len() - 2).push(ObjView::Boolean(v)),
                            ..st
                        },
                    )
                },
                _ => StepResult::Fail(VmError::TypeMismatch, st),
            }
        }
    } else if tag == 0x0d {
        // Bang
        if st.stack.len() < 1 {
            StepResult::Fail(VmError::StackUnderflow, st)
        } else {
            match st.stack.last() {
                ObjView::Boolean(b) => StepResult::Next(
                    VmState {
                        ip: st.ip + 1,
                        stack: st.stack.drop_last().push(ObjView::Boolean(!b)),
                        ..st
                    },
                ),
                _ => StepResult::Fail(VmError::TypeMismatch, st),
            }
        }
    } else if tag == 0x0e {
        // Minus
        if st.stack.len() < 1 {
            StepResult::Fail(VmError::StackUnderflow, st)
        } else {
            match st.stack.last() {
                ObjView::Int(a) => StepResult::Next(
                    VmState {
                        ip: st.ip + 1,
                        stack: st.stack.drop_last().push(
                            ObjView::Int((0 as i64).wrapping_sub(a)),
                        ),
                        ..st
                    },
                ),
                _ => StepResult::Fail(VmError::TypeMismatch, st),
            }
        }
    } else if tag == 0x0f {
        // Jmp
        if st.ip + 3 > code.len() {
            StepResult::Fail(VmError::TruncatedInstruction, st)
        } else {
            let target = decode_operand_spec(code[st.ip + 1], code[st.ip + 2]);
            StepResult::Next(VmState { ip: target, ..st })
        }
    } else if tag == 0x10 {
        // JmpIfFalse
        if st.ip + 3 > code.len() {
            StepResult::Fail(VmError::TruncatedInstruction, st)
        } else if st.stack.len() < 1 {
            StepResult::Fail(VmError::StackUnderflow, st)
        } else {
            match st.stack.last() {
                ObjView::Boolean(b) => {
                    let target = decode_operand_spec(code[st.ip + 1], code[st.ip + 2]);
                    StepResult::Next(
                        VmState {
                            ip: if b {
                                st.ip + 3
                            } else {
                                target
                            },
                            stack: st.stack.drop_last(),
                            ..st
                        },
                    )
                },
                _ => StepResult::Fail(VmError::TypeMismatch, st),
            }
        }
    } else if tag == 0x11 {
        // SetGlobal
        if st.ip + 3 > code.len() {
            StepResult::Fail(VmError::TruncatedInstruction, st)
        } else if st.stack.len() < 1 {
            StepResult::Fail(VmError::StackUnderflow, st)
        } else {
            let slot = decode_operand_spec(code[st.ip + 1], code[st.ip + 2]);
            StepResult::Next(
                VmState {
                    ip: st.ip + 3,
                    stack: st.stack.drop_last(),
                    globals: grow_set(st.globals, slot, st.stack.last()),
                    ..st
                },
            )
        }
    } else if tag == 0x12 {
        // GetGlobal
        if st.ip + 3 > code.len() {
            StepResult::Fail(VmError::TruncatedInstruction, st)
        } else {
            let slot = decode_operand_spec(code[st.ip + 1], code[st.ip + 2]);
            if slot >= st.globals.len() {
                StepResult::Fail(VmError::UndefinedGlobal, st)
            } else if st.stack.len() >= STACK_SIZE {
                StepResult::Fail(VmError::StackOverflow, st)
            } else {
                StepResult::Next(
                    VmState { ip: st.ip + 3, stack: st.stack.push(st.globals[slot]), ..st },
                )
            }
        }
    } else {
        StepResult::Fail(VmError::UnknownOpcode(tag), st)
    }
}

/// What a bounded run from `st` yields: the state at the end of the stream,
/// the first failure, or the state where the step budget ran out.
pub enum RunOutcome {
    Halted(VmState),
    Failed(VmError, VmState),
    OutOfSteps(VmState),
}

/// Run the dispatch loop until the instruction pointer reaches the end of
/// the stream, a failure, or the step budget runs out.
pub open spec fn vm_run(code: Seq<u8>, consts: Seq<ObjView>, st: VmState, steps: nat) -> RunOutcome
    decreases steps,
{
    if st.ip >= code.len() {
        RunOutcome::Halted(st)
    } else if steps == 0 {
        RunOutcome::OutOfSteps(st)
    } else {
        match vm_step(code, consts, st) {
            StepResult::Next(st2) => vm_run(code, consts, st2, (steps - 1) as nat),
            StepResult::Fail(e, st2) => RunOutcome::Failed(e, st2),
        }
    }
}

/// Determinism law: the machine\'s outcome is a function of the artifact
/// and the starting state alone, so two runs of the same compiled artifact
/// from freshly constructed machines yield identical results.
pub proof fn lemma_run_deterministic(
    code: Seq<u8>,
    consts: Seq<ObjView>,
    st1: VmState,
    st2: VmState,
)
    requires
        st1 == st2,
    ensures
        vm_run(code, consts, st1, VM_STEP_LIMIT as nat) == vm_run(
            code,
            consts,
            st2,
            VM_STEP_LIMIT as nat,
        ),
{
}

/// The state a freshly constructed machine starts in.
pub open spec fn vm_init_state() -> VmState {
    VmState { ip: 0, stack: Seq::empty(), globals: Seq::empty(), last: ObjView::Null }
}

/// The virtual machine: a compiled artifact, the value stack as a
/// pre-sized arena plus a stack pointer, the global store, and the value
/// the last `Pop` discarded.
pub struct Vm {
    instructions: Vec<u8>,
    constants: Vec<Object>,
    stack: Vec<Object>,
    stack_pointer: usize,
    globals: Vec<Object>,
    last_popped: Object,
}

impl Vm {
    /// The machine's instruction stream.
    pub closed spec fn code(self) -> Seq<u8> {
        self.instructions@
    }

    /// The machine's constant pool.
    pub closed spec fn consts(self) -> Seq<ObjView> {
        objs_view(self.constants@)
    }

    /// The active part of the stack.
    pub closed spec fn stack_model(self) -> Seq<ObjView> {
        objs_view(self.stack@.take(self.stack_pointer as int))
    }

    /// The global store.
    pub closed spec fn globals_model(self) -> Seq<ObjView> {
        objs_view(self.globals@)
    }

    /// The value the last `Pop` discarded.
    pub closed spec fn last_model(self) -> ObjView {
        obj_view(self.last_popped)
    }

    /// The machine's state with the instruction pointer at `ip`.
    pub open spec fn model_at(self, ip: int) -> VmState {
        VmState {
            ip,
            stack: self.stack_model(),
            globals: self.globals_model(),
            last: self.last_model(),
        }
    }

    /// The stack arena is full-sized and the stack pointer stays within it.
    pub closed spec fn wf(self) -> bool {
        self.stack@.len() == STACK_SIZE && self.stack_pointer <= STACK_SIZE
    }

    /// A machine over a compiled artifact: instruction pointer at the
    /// start, empty stack, empty global store.
    pub fn new(bytecode: ByteCode) -> (vm: Vm)
        ensures
            vm.wf(),
            vm.code() == bytecode.instructions@,
            vm.consts() == objs_view(bytecode.constants@),
            vm.model_at(0) == vm_init_state(),
    {
        let mut stack: Vec<Object> = Vec::new();
        while stack.len() < STACK_SIZE
            invariant
                stack@.len() <= STACK_SIZE,
            decreases STACK_SIZE - stack@.len(),
        {
            stack.push(Object::Null);
        }
        let vm = Vm {
            instructions: bytecode.instructions,
            constants: bytecode.constants,
            stack,
            stack_pointer: 0,
            globals: Vec::new(),
            last_popped: Object::Null,
        };
        proof {
            assert(vm.stack@.take(0) =~= Seq::<Object>::empty());
            assert(objs_view(Seq::<Object>::empty()) =~= Seq::<ObjView>::empty());
            assert(vm.model_at(0) =~= vm_init_state());
        }
        vm
    }

    /// The value the last executed `Pop` discarded: a program's final
    /// observable result.
    pub fn last_popped(&self) -> (r: &Object)
        ensures
            obj_view(*r) == self.last_model(),
    {
        &self.last_popped
    }

    /// The global store, indexed by the slots the symbol table assigned.
    pub fn globals(&self) -> (r: &Vec<Object>)
        ensures
            objs_view(r@) == self.globals_model(),
    {
        &self.globals
    }

    /// Push a value, reporting overflow past the fixed capacity.
    fn push(&mut self, obj: Object) -> (r: Result<(), VmError>)
        requires
            old(self).wf(),
        ensures
            final(self).wf(),
            final(self).code() == old(self).code(),
            final(self).consts() == old(self).consts(),
            final(self).globals_model() == old(self).globals_model(),
            final(self).last_model() == old(self).last_model(),
            if old(self).stack_model().len() >= STACK_SIZE {
                r == Err::<(), VmError>(VmError::StackOverflow) && final(self).stack_model()
                    == old(self).stack_model()
            } else {
                r is Ok && final(self).stack_model() == old(self).stack_model().push(
                    obj_view(obj),
                )
            },
    {
        proof {
            crate::evaluator::lemma_objs_view_len(self.stack@.take(self.stack_pointer as int));
        }
        if self.stack_pointer >= STACK_SIZE {
            return Err(VmError::StackOverflow);
        }
        let ghost pre = self.stack@.take(self.stack_pointer as int);
        self.stack.set(self.stack_pointer, obj);
        self.stack_pointer = self.stack_pointer + 1;
        proof {
            assert(self.stack@.take(self.stack_pointer as int) =~= pre.push(obj));
            crate::evaluator::lemma_objs_view_push(pre, obj);
        }
        Ok(())
    }

    /// Pop the top value; the caller checks for underflow first.
    fn pop(&mut self) -> (r: Object)
        requires
            old(self).wf(),
            old(self).stack_model().len() >= 1,
        ensures
            final(self).wf(),
            final(self).code() == old(self).code(),
            final(self).consts() == old(self).consts(),
            final(self).globals_model() == old(self).globals_model(),
            final(self).last_model() == old(self).last_model(),
            final(self).stack_model() == old(self).stack_model().drop_last(),
            obj_view(r) == old(self).stack_model().last(),
    {
        proof {
            crate::evaluator::lemma_objs_view_len(self.stack@.take(self.stack_pointer as int));
        }
        let ghost pre = self.stack@.take(self.stack_pointer as int);
        self.stack_pointer = self.stack_pointer - 1;
        let mut out = Object::Null;
        self.stack.set_and_swap(self.stack_pointer, &mut out);
        proof {
            assert(self.stack@.take(self.stack_pointer as int) =~= pre.drop_last());
            assert(pre.drop_last().push(pre.last()) =~= pre);
            crate::evaluator::lemma_objs_view_push(pre.drop_last(), out);
        }
        out
    }

    /// The number of values on the stack.
    fn depth(&self) -> (r: usize)
        requires
            self.wf(),
        ensures
            r == self.stack_model().len(),
    {
        proof {
            crate::evaluator::lemma_objs_view_len(self.stack@.take(self.stack_pointer as int));
        }
        self.stack_pointer
    }
}

impl Vm {
    /// Apply one arithmetic opcode to the top two stack values.
    fn exec_arith(&mut self, tag: u8) -> (r: Result<(), VmError>)
        requires
            old(self).wf(),
            tag == 0x02 || tag == 0x03 || tag == 0x04 || tag == 0x05,
        ensures
            final(self).wf(),
            final(self).code() == old(self).code(),
            final(self).consts() == old(self).consts(),
            final(self).globals_model() == old(self).globals_model(),
            final(self).last_model() == old(self).last_model(),
            ({
                let stack = old(self).stack_model();
                if stack.len() < 2 {
                    r == Err::<(), VmError>(VmError::StackUnderflow) && final(self).stack_model()
                        == stack
                } else {
                    match (stack[stack.len() - 2], stack.last()) {
                        (ObjView::Int(a), ObjView::Int(b)) => {
                            if tag == 0x05 && b == 0 {
                                r == Err::<(), VmError>(VmError::DivisionByZero) && final(self).stack_model()
                                    == stack
                            } else {
                                let v = if tag == 0x02 {
                                    a.wrapping_add(b)
                                } else if tag == 0x03 {
                                    a.wrapping_sub(b)
                                } else if tag == 0x04 {
                                    a.wrapping_mul(b)
                                } else {
                                    wrap_div(a, b)
                                };
                                r is Ok && final(self).stack_model() == stack.take(
                                    stack.len() - 2,
                                ).push(ObjView::Int(v))
                            }
                        },
                        _ => r == Err::<(), VmError>(VmError::TypeMismatch) && final(
                            self
                        ).stack_model() == stack,
                    }
                }
            }),
    {
        if self.depth() < 2 {
            return Err(VmError::StackUnderflow);
        }
        proof {
            crate::evaluator::lemma_objs_view_len(self.stack@.take(self.stack_pointer as int));
            crate::evaluator::lemma_objs_view_index(
                self.stack@.take(self.stack_pointer as int),
                self.stack_pointer - 2,
            );
            crate::evaluator::lemma_objs_view_index(
                self.stack@.take(self.stack_pointer as int),
                self.stack_pointer - 1,
            );
        }
        let args_ok = match (
            &self.stack[self.stack_pointer - 2],
            &self.stack[self.stack_pointer - 1],
        ) {
            (Object::Int(_), Object::Int(bv)) => {
                if tag == 0x05 && *bv == 0 {
                    return Err(VmError::DivisionByZero);
                }
                true
            },
            _ => false,
        };
        if !args_ok {
            return Err(VmError::TypeMismatch);
        }
        let right = self.pop();
        let left = self.pop();
        match (left, right) {
            (Object::Int(a), Object::Int(b)) => {
                let v: i64 = if tag == 0x02 {
                    a.wrapping_add(b)
                } else if tag == 0x03 {
                    a.wrapping_sub(b)
                } else if tag == 0x04 {
                    a.wrapping_mul(b)
                } else {
                    match a.checked_div(b) {
                        Some(q) => q,
                        None => i64::MIN,
                    }
                };
                let res = self.push(Object::Int(v));
                proof {
                    assert(old(self).stack_model().drop_last().drop_last() =~= old(
                        self,
                    ).stack_model().take(old(self).stack_model().len() - 2));
                }
                match res {
                    Ok(_) => Ok(()),
                    Err(e) => Err(e),
                }
            },
            _ => Err(VmError::TypeMismatch),
        }
    }

    /// Apply one comparison opcode to the top two stack values.
    fn exec_cmp(&mut self, tag: u8) -> (r: Result<(), VmError>)
        requires
            old(self).wf(),
            tag == 0x09 || tag == 0x0a || tag == 0x0b || tag == 0x0c,
        ensures
            final(self).wf(),
            final(self).code() == old(self).code(),
            final(self).consts() == old(self).consts(),
            final(self).globals_model() == old(self).globals_model(),
            final(self).last_model() == old(self).last_model(),
            ({
                let stack = old(self).stack_model();
                if stack.len() < 2 {
                    r == Err::<(), VmError>(VmError::StackUnderflow) && final(self).stack_model()
                        == stack
                } else {
                    match (stack[stack.len() - 2], stack.last()) {
                        (ObjView::Int(a), ObjView::Int(b)) => {
                            let v = if tag == 0x09 {
                                a > b
                            } else if tag == 0x0a {
                                a < b
                            } else if tag == 0x0b {
                                a == b
                            } else {
                                a != b
                            };
                            r is Ok && final(self).stack_model() == stack.take(
                                stack.len() - 2,
                            ).push(ObjView::Boolean(v))
                        },
                        _ => r == Err::<(), VmError>(VmError::TypeMismatch) && final(
                            self
                        ).stack_model() == stack,
                    }
                }
            }),
    {
        if self.depth() < 2 {
            return Err(VmError::StackUnderflow);
        }
        proof {
            crate::evaluator::lemma_objs_view_len(self.stack@.take(self.stack_pointer as int));
            crate::evaluator::lemma_objs_view_index(
                self.stack@.take(self.stack_pointer as int),
                self.stack_pointer - 2,
            );
            crate::evaluator::lemma_objs_view_index(
                self.stack@.take(self.stack_pointer as int),
                self.stack_pointer - 1,
            );
        }
        let args_ok = match (
            &self.stack[self.stack_pointer - 2],
            &self.stack[self.stack_pointer - 1],
        ) {
            (Object::Int(_), Object::Int(_)) => true,
            _ => false,
        };
        if !args_ok {
            return Err(VmError::TypeMismatch);
        }
        let right = self.pop();
        let left = self.pop();
        match (left, right) {
            (Object::Int(a), Object::Int(b)) => {
                let v: bool = if tag == 0x09 {
                    a > b
                } else if tag == 0x0a {
                    a < b
                } else if tag == 0x0b {
                    a == b
                } else {
                    a != b
                };
                let res = self.push(Object::Boolean(v));
                proof {
                    assert(old(self).stack_model().drop_last().drop_last() =~= old(
                        self,
                    ).stack_model().take(old(self).stack_model().len() - 2));
                }
                match res {
                    Ok(_) => Ok(()),
                    Err(e) => Err(e),
                }
            },
            _ => Err(VmError::TypeMismatch),
        }
    }

    /// Write the popped value at a global slot, growing the store to reach
    /// a new slot.
    fn exec_set_global(&mut self, slot: usize, value: Object)
        requires
            old(self).wf(),
            slot <= u16::MAX,
        ensures
            final(self).wf(),
            final(self).code() == old(self).code(),
            final(self).consts() == old(self).consts(),
            final(self).stack_model() == old(self).stack_model(),
            final(self).last_model() == old(self).last_model(),
            final(self).globals_model() == grow_set(
                old(self).globals_model(),
                slot as int,
                obj_view(value),
            ),
    {
        proof {
            crate::evaluator::lemma_objs_view_len(self.globals@);
        }
        while self.globals.len() <= slot
            invariant
                self.wf(),
                self.globals@.len() <= slot + 1 || self.globals@.len() <= old(
                    self,
                ).globals@.len(),
                self.instructions@ == old(self).instructions@,
                self.constants@ == old(self).constants@,
                self.stack@ == old(self).stack@,
                self.stack_pointer == old(self).stack_pointer,
                self.last_popped == old(self).last_popped,
                self.globals@.len() >= old(self).globals@.len(),
                self.globals@.take(old(self).globals@.len() as int) == old(self).globals@,
                forall|j: int|
                    old(self).globals@.len() <= j < self.globals@.len() ==> #[trigger] self.globals@[j]
                        == Object::Null,
            decreases slot + 1 - self.globals@.len(),
        {
            self.globals.push(Object::Null);
            proof {
                assert(self.globals@.take(old(self).globals@.len() as int) =~= old(
                    self,
                ).globals@);
            }
        }
        let ghost padded = self.globals@;
        self.globals.set(slot, value);
        proof {
            lemma_objs_view_grow_set(old(self).globals@, padded, self.globals@, slot as int, value);
        }
    }
}

/// Writing at a slot after padding with nulls matches `grow_set` on the
/// views.
proof fn lemma_objs_view_grow_set(
    orig: Seq<Object>,
    padded: Seq<Object>,
    fin: Seq<Object>,
    slot: int,
    value: Object,
)
    requires
        0 <= slot,
        slot < padded.len(),
        padded.len() == if orig.len() <= slot {
            slot + 1
        } else {
            orig.len() as int
        },
        padded.take(orig.len() as int) == orig,
        forall|j: int| orig.len() <= j < padded.len() ==> #[trigger] padded[j] == Object::Null,
        fin == padded.update(slot, value),
    ensures
        objs_view(fin) == grow_set(objs_view(orig), slot, obj_view(value)),
{
    crate::evaluator::lemma_objs_view_len(orig);
    crate::evaluator::lemma_objs_view_len(fin);
    assert forall|i: int| 0 <= i < fin.len() implies #[trigger] objs_view(fin)[i] == grow_set(
        objs_view(orig),
        slot,
        obj_view(value),
    )[i] by {
        crate::evaluator::lemma_objs_view_index(fin, i);
        if i < orig.len() {
            crate::evaluator::lemma_objs_view_index(orig, i);
            assert(padded[i] == orig[i]);
        }
    }
    crate::evaluator::lemma_objs_view_len(orig);
    assert(objs_view(fin) =~= grow_set(objs_view(orig), slot, obj_view(value)));
}

impl Vm {
    /// Execute until the instruction pointer reaches the end of the stream,
    /// a fatal error, or the step budget runs out.  The result and the
    /// machine's final state are exactly what the mathematical run of the
    /// artifact yields.
    #[verifier::rlimit(100)]
    pub fn run(&mut self) -> (r: Result<(), VmError>)
        requires
            old(self).wf(),
        ensures
            final(self).wf(),
            final(self).code() == old(self).code(),
            final(self).consts() == old(self).consts(),
            ({
                let outcome = vm_run(
                    old(self).code(),
                    old(self).consts(),
                    old(self).model_at(0),
                    VM_STEP_LIMIT as nat,
                );
                match (outcome, r) {
                    (RunOutcome::Halted(st), Ok(u)) => final(self).model_at(st.ip) == st
                        && st.ip >= old(self).code().len(),
                    (RunOutcome::Failed(e, st), Err(er)) => er == e && final(self).model_at(st.ip)
                        == st,
                    (RunOutcome::OutOfSteps(st), Err(er)) => er == VmError::StepLimitExceeded
                        && final(self).model_at(st.ip) == st,
                    _ => false,
                }
            }),
    {
        let ghost code0 = old(self).code();
        let ghost consts0 = old(self).consts();
        let ghost init = old(self).model_at(0);
        let mut ip: usize = 0;
        let mut steps: u64 = VM_STEP_LIMIT;
        while ip < self.instructions.len()
            invariant
                self.wf(),
                self.code() == code0,
                self.consts() == consts0,
                code0 == old(self).code(),
                consts0 == old(self).consts(),
                init == old(self).model_at(0),
                vm_run(code0, consts0, init, VM_STEP_LIMIT as nat) == vm_run(
                    code0,
                    consts0,
                    self.model_at(ip as int),
                    steps as nat,
                ),
            decreases steps,
        {
            let ghost pre = self.model_at(ip as int);
            if steps == 0 {
                return Err(VmError::StepLimitExceeded);
            }
            steps = steps - 1;
            let tag = self.instructions[ip];
            if tag == 0x01 {
                // Constant
                if self.instructions.len() - ip < 3 {
                    return Err(VmError::TruncatedInstruction);
                }
                let const_index = crate::code::two_u8_to_usize(
                    self.instructions[ip + 1],
                    self.instructions[ip + 2],
                );
                proof {
                    crate::evaluator::lemma_objs_view_len(self.constants@);
                }
                if const_index >= self.constants.len() {
                    return Err(VmError::ConstantOutOfRange);
                }
                if self.depth() >= STACK_SIZE {
                    return Err(VmError::StackOverflow);
                }
                proof {
                    crate::evaluator::lemma_objs_view_index(self.constants@, const_index as int);
                }
                let value = duplicate(&self.constants[const_index]);
                let res = self.push(value);
                match res {
                    Ok(u) => {},
                    Err(e) => {
                        return Err(e);
                    },
                }
                ip = ip + 3;
                proof {
                    assert(vm_step(code0, consts0, pre) == StepResult::Next(
                        self.model_at(ip as int),
                    ));
                }
            } else if tag == 0x02 || tag == 0x03 || tag == 0x04 || tag == 0x05 {
                match self.exec_arith(tag) {
                    Ok(u) => {},
                    Err(e) => {
                        return Err(e);
                    },
                }
                ip = ip + 1;
                proof {
                    assert(vm_step(code0, consts0, pre) == StepResult::Next(
                        self.model_at(ip as int),
                    ));
                }
            } else if tag == 0x06 {
                // Pop
                if self.depth() < 1 {
                    return Err(VmError::StackUnderflow);
                }
                let value = self.pop();
                self.last_popped = value;
                ip = ip + 1;
                proof {
                    assert(vm_step(code0, consts0, pre) == StepResult::Next(
                        self.model_at(ip as int),
                    ));
                }
            } else if tag == 0x07 || tag == 0x08 {
                if self.depth() >= STACK_SIZE {
                    return Err(VmError::StackOverflow);
                }
                let res = self.push(Object::Boolean(tag == 0x07));
                match res {
                    Ok(u) => {},
                    Err(e) => {
                        return Err(e);
                    },
                }
                ip = ip + 1;
                proof {
                    assert(vm_step(code0, consts0, pre) == StepResult::Next(
                        self.model_at(ip as int),
                    ));
                }
            } else if tag == 0x09 || tag == 0x0a || tag == 0x0b || tag == 0x0c {
                match self.exec_cmp(tag) {
                    Ok(u) => {},
                    Err(e) => {
                        return Err(e);
                    },
                }
                ip = ip + 1;
                proof {
                    assert(vm_step(code0, consts0, pre) == StepResult::Next(
                        self.model_at(ip as int),
                    ));
                }
            } else if tag == 0x0d {
                // Bang
                if self.depth() < 1 {
                    return Err(VmError::StackUnderflow);
                }
                proof {
                    crate::evaluator::lemma_objs_view_len(
                        self.stack@.take(self.stack_pointer as int),
                    );
                    crate::evaluator::lemma_objs_view_index(
                        self.stack@.take(self.stack_pointer as int),
                        self.stack_pointer - 1,
                    );
                }
                let arg_ok = match &self.stack[self.stack_pointer - 1] {
                    Object::Boolean(_) => true,
                    _ => false,
                };
                if !arg_ok {
                    return Err(VmError::TypeMismatch);
                }
                let value = self.pop();
                let res = match value {
                    Object::Boolean(b) => self.push(Object::Boolean(!b)),
                    _ => Err(VmError::TypeMismatch),
                };
                match res {
                    Ok(u) => {},
                    Err(e) => {
                        return Err(e);
                    },
                }
                ip = ip + 1;
                proof {
                    assert(vm_step(code0, consts0, pre) == StepResult::Next(
                        self.model_at(ip as int),
                    ));
                }
            } else if tag == 0x0e {
                // Minus
                if self.depth() < 1 {
                    return Err(VmError::StackUnderflow);
                }
                proof {
                    crate::evaluator::lemma_objs_view_len(
                        self.stack@.take(self.stack_pointer as int),
                    );
                    crate::evaluator::lemma_objs_view_index(
                        self.stack@.take(self.stack_pointer as int),
                        self.stack_pointer - 1,
                    );
                }
                let arg_ok = match &self.stack[self.stack_pointer - 1] {
                    Object::Int(_) => true,
                    _ => false,
                };
                if !arg_ok {
                    return Err(VmError::TypeMismatch);
                }
                let value = self.pop();
                let res = match value {
                    Object::Int(a) => self.push(Object::Int((0 as i64).wrapping_sub(a))),
                    _ => Err(VmError::TypeMismatch),
                };
                match res {
                    Ok(u) => {},
                    Err(e) => {
                        return Err(e);
                    },
                }
                ip = ip + 1;
                proof {
                    assert(vm_step(code0, consts0, pre) == StepResult::Next(
                        self.model_at(ip as int),
                    ));
                }
            } else if tag == 0x0f {
                // Jmp
                if self.instructions.len() - ip < 3 {
                    return Err(VmError::TruncatedInstruction);
                }
                let target = crate::code::two_u8_to_usize(
                    self.instructions[ip + 1],
                    self.instructions[ip + 2],
                );
                ip = target;
                proof {
                    assert(vm_step(code0, consts0, pre) == StepResult::Next(
                        self.model_at(ip as int),
                    ));
                }
            } else if tag == 0x10 {
                // JmpIfFalse
                if self.instructions.len() - ip < 3 {
                    return Err(VmError::TruncatedInstruction);
                }
                if self.depth() < 1 {
                    return Err(VmError::StackUnderflow);
                }
                proof {
                    crate::evaluator::lemma_objs_view_len(
                        self.stack@.take(self.stack_pointer as int),
                    );
                    crate::evaluator::lemma_objs_view_index(
                        self.stack@.take(self.stack_pointer as int),
                        self.stack_pointer - 1,
                    );
                }
                let arg_ok = match &self.stack[self.stack_pointer - 1] {
                    Object::Boolean(_) => true,
                    _ => false,
                };
                if !arg_ok {
                    return Err(VmError::TypeMismatch);
                }
                let target = crate::code::two_u8_to_usize(
                    self.instructions[ip + 1],
                    self.instructions[ip + 2],
                );
                let value = self.pop();
                let cond = match value {
                    Object::Boolean(b) => b,
                    _ => false,
                };
                if cond {
                    ip = ip + 3;
                } else {
                    ip = target;
                }
                proof {
                    assert(vm_step(code0, consts0, pre) == StepResult::Next(
                        self.model_at(ip as int),
                    ));
                }
            } else if tag == 0x11 {
                // SetGlobal
                if self.instructions.len() - ip < 3 {
                    return Err(VmError::TruncatedInstruction);
                }
                if self.depth() < 1 {
                    return Err(VmError::StackUnderflow);
                }
                let slot = crate::code::two_u8_to_usize(
                    self.instructions[ip + 1],
                    self.instructions[ip + 2],
                );
                let value = self.pop();
                self.exec_set_global(slot, value);
                ip = ip + 3;
                proof {
                    assert(vm_step(code0, consts0, pre) == StepResult::Next(
                        self.model_at(ip as int),
                    ));
                }
            } else if tag == 0x12 {
                // GetGlobal
                if self.instructions.len() - ip < 3 {
                    return Err(VmError::TruncatedInstruction);
                }
                let slot = crate::code::two_u8_to_usize(
                    self.instructions[ip + 1],
                    self.instructions[ip + 2],
                );
                proof {
                    crate::evaluator::lemma_objs_view_len(self.globals@);
                }
                if slot >= self.globals.len() {
                    return Err(VmError::UndefinedGlobal);
                }
                if self.depth() >= STACK_SIZE {
                    return Err(VmError::StackOverflow);
                }
                proof {
                    crate::evaluator::lemma_objs_view_index(self.globals@, slot as int);
                }
                let value = duplicate(&self.globals[slot]);
                let res = self.push(value);
                match res {
                    Ok(u) => {},
                    Err(e) => {
                        return Err(e);
                    },
                }
                ip = ip + 3;
                proof {
                    assert(vm_step(code0, consts0, pre) == StepResult::Next(
                        self.model_at(ip as int),
                    ));
                }
            } else {
                return Err(VmError::UnknownOpcode(tag));
            }
        }
        Ok(())
    }
}

} // verus!
