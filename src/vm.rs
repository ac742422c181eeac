use vstd::prelude::*;
use crate::chunk::Chunk;
use crate::opcode::{apply_op, binary_of, BinaryOp, OpCode, Value};

verus! {

/// Capacity of the operand stack.
pub const STACK_MAX: usize = 256;

/// Completion status of one execution.
#[derive(Debug, Clone, Copy, PartialEq, Eq, Structural)]
pub enum InterpretResult {
    Success,
    /// Reserved for a compiler stage; never produced by the machine itself.
    CompileError,
    /// The instructions popped an empty stack or pushed onto a full one.
    RuntimeError,
}

/// What `op` does to the stack and to the printed output, given the
/// constant pool; `None` where it would pop more than the stack holds or push
/// onto a full stack.
pub open spec fn step<V: Value>(op: OpCode, consts: Seq<V>, stack: Seq<V>, output: Seq<V>) -> Option<
    (Seq<V>, Seq<V>),
> {
    let n = stack.len();
    match op {
        OpCode::Constant(i) => if n < STACK_MAX {
            Some((stack.push(consts[i as int]), output))
        } else {
            None
        },
        OpCode::Negate => if n >= 1 {
            Some((stack.drop_last().push(stack.last().spec_negate()), output))
        } else {
            None
        },
        OpCode::Return => if n >= 1 {
            Some((stack.drop_last(), output.push(stack.last())))
        } else {
            None
        },
        _ => if n >= 2 {
            Some(
                (
                    stack.subrange(0, n - 2).push(
                        apply_op(binary_of(op)->0, stack[n - 2], stack[n - 1]),
                    ),
                    output,
                ),
            )
        } else {
            None
        },
    }
}

/// Where a run over the first instructions of a chunk stands: how many
/// completed, the stack, the values printed so far, and whether the next
/// instruction faulted.
pub struct RunState<V> {
    pub completed: nat,
    pub stack: Seq<V>,
    pub output: Seq<V>,
    pub faulted: bool,
}

/// The state after the machine has been offered the first `n` instructions
/// of `code`, from an empty stack; it stops at the first fault.
pub open spec fn run_state<V: Value>(code: Seq<OpCode>, consts: Seq<V>, n: nat) -> RunState<V>
    decreases n,
{
    if n == 0 {
        RunState { completed: 0, stack: Seq::empty(), output: Seq::empty(), faulted: false }
    } else {
        let st = run_state(code, consts, (n - 1) as nat);
        if st.faulted {
            st
        } else {
            match step(code[n - 1], consts, st.stack, st.output) {
                Some((stack, output)) => RunState { completed: n, stack, output, faulted: false },
                None => RunState {
                    completed: st.completed,
                    stack: st.stack,
                    output: st.output,
                    faulted: true,
                },
            }
        }
    }
}

/// A fixed-capacity LIFO store of operands.
pub struct VMStack<V> {
    values: Vec<V>,
}

impl<V: Value> VMStack<V> {
    pub closed spec fn view(&self) -> Seq<V> {
        self.values@
    }

    pub open spec fn wf(&self) -> bool {
        self.view().len() <= STACK_MAX
    }

    pub fn new() -> (r: Self)
        ensures
            r.wf(),
            r.view().len() == 0,
    {
        VMStack { values: Vec::new() }
    }

    /// The number of values on the stack.
    pub fn top(&self) -> (r: usize)
        ensures
            r == self.view().len(),
    {
        self.values.len()
    }

    /// A copy of the stack's contents, bottom first.
    pub fn snapshot(&self) -> (r: Vec<V>)
        ensures
            r@ == self.view(),
    {
        let mut r: Vec<V> = Vec::new();
        let mut i: usize = 0;
        while i < self.values.len()
            invariant
                i <= self.values@.len(),
                r@ == self.values@.subrange(0, i as int),
            decreases self.values@.len() - i,
        {
            r.push(self.values[i]);
            i = i + 1;
            assert(r@ =~= self.values@.subrange(0, i as int));
        }
        assert(r@ =~= self.values@);
        r
    }

    /// Pushes `value`, or reports `false` and leaves a full stack unchanged.
    pub fn push(&mut self, value: V) -> (ok: bool)
        requires
            old(self).wf(),
        ensures
            final(self).wf(),
            ok == (old(self).view().len() < STACK_MAX),
            ok ==> final(self).view() == old(self).view().push(value),
            !ok ==> final(self).view() == old(self).view(),
    {
        if self.values.len() < STACK_MAX {
            self.values.push(value);
            true
        } else {
            false
        }
    }

    /// Pops the top value, or yields `None` on an empty stack.
    pub fn pop(&mut self) -> (r: Option<V>)
        requires
            old(self).wf(),
        ensures
            final(self).wf(),
            old(self).view().len() == 0 ==> (r is None) && final(self).view() == old(self).view(),
            old(self).view().len() > 0 ==> r == Some(old(self).view().last()) && final(self).view() == old(self).view().drop_last(),
    {
        self.values.pop()
    }

    /// Pops the right operand, then the left, and pushes `left op right`;
    /// with fewer than two values it reports `false` and changes nothing.
    pub fn binary_op(&mut self, op: BinaryOp) -> (ok: bool)
        requires
            old(self).wf(),
        ensures
            final(self).wf(),
            ok == (old(self).view().len() >= 2),
            ok ==> final(self).view() == old(self).view().subrange(0, old(self).view().len() - 2).push(
                apply_op(
                    op,
                    old(self).view()[old(self).view().len() - 2],
                    old(self).view().last(),
                ),
            ),
            !ok ==> final(self).view() == old(self).view(),
    {
        if self.values.len() < 2 {
            return false;
        }
        let b = self.values.pop().unwrap();
        let a = self.values.pop().unwrap();
        let res = match op {
            BinaryOp::Add => a.add(b),
            BinaryOp::Substract => a.subtract(b),
            BinaryOp::Multiply => a.multiply(b),
            BinaryOp::Divide => a.divide(b),
        };
        self.values.push(res);
        assert(self.values@ =~= old(self).values@.subrange(0, old(self).values@.len() - 2).push(
            apply_op(op, a, b),
        ));
        true
    }

    /// Replaces the top value by its negation in place; on an empty stack it
    /// reports `false`.
    pub fn negate_top(&mut self) -> (ok: bool)
        requires
            old(self).wf(),
        ensures
            final(self).wf(),
            ok == (old(self).view().len() >= 1),
            ok ==> final(self).view() == old(self).view().drop_last().push(
                old(self).view().last().spec_negate(),
            ),
            !ok ==> final(self).view() == old(self).view(),
    {
        let n = self.values.len();
        if n == 0 {
            return false;
        }
        let v = self.values[n - 1];
        self.values.set(n - 1, v.negate());
        assert(self.values@ =~= old(self).values@.drop_last().push(v.spec_negate()));
        true
    }
}

/// The stack as it stood before the instruction at `offset` ran, and how
/// many values had been printed by then.
pub struct Snapshot<V> {
    pub offset: usize,
    pub stack: Vec<V>,
    pub printed: usize,
}

/// What one execution produced.
pub struct Execution<V> {
    pub result: InterpretResult,
    /// The values popped and printed by `Return`, in order.
    pub output: Vec<V>,
    /// One snapshot per dispatched instruction, when tracing was asked for.
    pub trace: Vec<Snapshot<V>>,
    /// The stack depth at the end.
    pub stack_top: usize,
}

/// The machine: it owns a chunk and an operand stack for one execution.
pub struct VM<V> {
    pub chunk: Chunk<V>,
    vmstack: VMStack<V>,
}

impl<V: Value> VM<V> {
    /// The chunk that the machine executes.
    pub closed spec fn program(&self) -> Chunk<V> {
        self.chunk
    }

    pub closed spec fn wf(&self) -> bool {
        &&& self.chunk.wf()
        &&& self.vmstack.wf()
        &&& self.vmstack.view().len() == 0
    }

    pub fn init(chunk: Chunk<V>) -> (r: Self)
        requires
            chunk.wf(),
        ensures
            r.wf(),
            r.program() == chunk,
    {
        VM { chunk, vmstack: VMStack::new() }
    }

    /// Runs the chunk's instructions in order from the first, stopping at the
    /// first one that would underflow or overflow the stack.
    pub fn interpret(self, debug_trace_execution: bool) -> (r: Execution<V>)
        requires
            self.wf(),
        ensures
            ({
                let code = self.program().code@;
                let consts = self.program().constants@;
                let st = run_state(code, consts, code.len());
                &&& r.result == if st.faulted {
                    InterpretResult::RuntimeError
                } else {
                    InterpretResult::Success
                }
                &&& r.stack_top == st.stack.len()
                &&& r.output@ == st.output
                &&& r.trace@.len() == if debug_trace_execution {
                    st.completed + if st.faulted {
                        1nat
                    } else {
                        0nat
                    }
                } else {
                    0
                }
                &&& forall|i: int|
                    0 <= i < r.trace@.len() ==> traced(#[trigger] r.trace@[i], code, consts, i)
            }),
    {
        let mut vm = self;
        vm.run(debug_trace_execution)
    }

    fn run(&mut self, debug_trace_execution: bool) -> (r: Execution<V>)
        requires
            old(self).wf(),
        ensures
            final(self).program() == old(self).program(),
            ({
                let code = old(self).program().code@;
                let consts = old(self).program().constants@;
                let st = run_state(code, consts, code.len());
                &&& r.result == if st.faulted {
                    InterpretResult::RuntimeError
                } else {
                    InterpretResult::Success
                }
                &&& r.stack_top == st.stack.len()
                &&& r.output@ == st.output
                &&& r.trace@.len() == if debug_trace_execution {
                    st.completed + if st.faulted {
                        1nat
                    } else {
                        0nat
                    }
                } else {
                    0
                }
                &&& forall|i: int|
                    0 <= i < r.trace@.len() ==> traced(#[trigger] r.trace@[i], code, consts, i)
            }),
    {
        let n = self.chunk.code.len();
        let ghost code = self.chunk.code@;
        let ghost consts = self.chunk.constants@;
        let mut output: Vec<V> = Vec::new();
        let mut trace: Vec<Snapshot<V>> = Vec::new();
        let mut offset: usize = 0;
        let mut result = InterpretResult::Success;
        assert(self.vmstack.view() =~= Seq::<V>::empty());
        assert(output@ =~= Seq::<V>::empty());
        loop
            invariant_except_break
                result == InterpretResult::Success,
                run_state(code, consts, offset as nat) == (RunState {
                    completed: offset as nat,
                    stack: self.vmstack.view(),
                    output: output@,
                    faulted: false,
                }),
                trace@.len() == if debug_trace_execution {
                    offset as nat
                } else {
                    0
                },
            invariant
                self.chunk == old(self).chunk,
                self.chunk.wf(),
                self.vmstack.wf(),
                code == self.chunk.code@,
                consts == self.chunk.constants@,
                n == code.len(),
                offset <= n,
                forall|i: int| 0 <= i < trace@.len() ==> traced(#[trigger] trace@[i], code, consts, i),
            ensures
                self.chunk == old(self).chunk,
                offset <= n,
                result == InterpretResult::Success ==> offset == n && run_state(code, consts, n as nat)
                    == (RunState {
                    completed: n as nat,
                    stack: self.vmstack.view(),
                    output: output@,
                    faulted: false,
                }),
                result == InterpretResult::RuntimeError ==> offset < n && run_state(
                    code,
                    consts,
                    (offset + 1) as nat,
                ) == (RunState {
                    completed: offset as nat,
                    stack: self.vmstack.view(),
                    output: output@,
                    faulted: true,
                }),
                result == InterpretResult::Success || result == InterpretResult::RuntimeError,
                trace@.len() == if debug_trace_execution {
                    offset as nat + if result == InterpretResult::RuntimeError {
                        1nat
                    } else {
                        0nat
                    }
                } else {
                    0
                },
                forall|i: int| 0 <= i < trace@.len() ==> traced(#[trigger] trace@[i], code, consts, i),
            decreases n - offset,
        {
            if offset >= n {
                break;
            }
            if debug_trace_execution {
                let stack = self.vmstack.snapshot();
                trace.push(Snapshot { offset, stack, printed: output.len() });
            }
            let instruction = self.chunk.code[offset];
            let ok = match instruction {
                OpCode::Constant(const_index) => {
                    let constant = self.chunk.constants[const_index];
                    self.vmstack.push(constant)
                },
                OpCode::Add => self.vmstack.binary_op(BinaryOp::Add),
                OpCode::Subtract => self.vmstack.binary_op(BinaryOp::Substract),
                OpCode::Multiply => self.vmstack.binary_op(BinaryOp::Multiply),
                OpCode::Divide => self.vmstack.binary_op(BinaryOp::Divide),
                OpCode::Negate => self.vmstack.negate_top(),
                OpCode::Return => match self.vmstack.pop() {
                    Some(v) => {
                        output.push(v);
                        true
                    },
                    None => false,
                },
            };
            if !ok {
                result = InterpretResult::RuntimeError;
                break;
            }
            offset = offset + 1;
        }
        proof {
            if result == InterpretResult::RuntimeError {
                lemma_fault_persists(code, consts, (offset + 1) as nat, n as nat);
            }
        }
        let stack_top = self.vmstack.top();
        Execution { result, output, trace, stack_top }
    }
}

/// Snapshot `snap` is the one taken before instruction `i`: the stack as it
/// stood then, and the number of values printed by then.
pub open spec fn traced<V: Value>(snap: Snapshot<V>, code: Seq<OpCode>, consts: Seq<V>, i: int) -> bool {
    &&& snap.offset == i
    &&& snap.stack@ == run_state(code, consts, i as nat).stack
    &&& snap.printed == run_state(code, consts, i as nat).output.len()
}

/// Once a run has faulted, offering it more instructions changes nothing.
pub proof fn lemma_fault_persists<V: Value>(code: Seq<OpCode>, consts: Seq<V>, k: nat, n: nat)
    requires
        k <= n,
        run_state(code, consts, k).faulted,
    ensures
        run_state(code, consts, n) == run_state(code, consts, k),
    decreases n - k,
{
    if k < n {
        lemma_fault_persists(code, consts, k, (n - 1) as nat);
    }
}

/// `code` is `n` constant loads followed by one `Return`.
pub open spec fn constants_then_return(code: Seq<OpCode>, n: nat) -> bool {
    &&& code.len() == n + 1
    &&& forall|i: int| 0 <= i < n ==> (#[trigger] code[i]) is Constant
    &&& code[n as int] is Return
}

proof fn lemma_constant_prefix<V: Value>(code: Seq<OpCode>, consts: Seq<V>, n: nat, k: nat)
    requires
        constants_then_return(code, n),
        n <= STACK_MAX,
        k <= n,
    ensures
        run_state(code, consts, k).completed == k,
        run_state(code, consts, k).stack.len() == k,
        run_state(code, consts, k).output.len() == 0,
        !run_state(code, consts, k).faulted,
    decreases k,
{
    if k > 0 {
        lemma_constant_prefix(code, consts, n, (k - 1) as nat);
        assert(code[k - 1] is Constant);
    }
}

/// Running `n` constant loads (as many as the stack holds) followed by
/// `Return` completes without fault, prints one value and leaves `n - 1`
/// values: the stack's top index returns to zero exactly when a single
/// constant was pushed.
pub proof fn lemma_constants_then_return<V: Value>(code: Seq<OpCode>, consts: Seq<V>, n: nat)
    requires
        constants_then_return(code, n),
        1 <= n <= STACK_MAX,
    ensures
        run_state(code, consts, code.len()).completed == n + 1,
        !run_state(code, consts, code.len()).faulted,
        run_state(code, consts, code.len()).output.len() == 1,
        run_state(code, consts, code.len()).stack.len() == n - 1,
        (run_state(code, consts, code.len()).stack.len() == 0) == (n == 1),
{
    lemma_constant_prefix(code, consts, n, n);
}

} // verus!
