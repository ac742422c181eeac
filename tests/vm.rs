use lox_lang::chunk::Chunk;
use lox_lang::opcode::{OpCode, Value};
use lox_lang::vm::{InterpretResult, STACK_MAX, VM};

#[derive(Clone, Copy, Debug, PartialEq)]
struct Num(f64);

impl Value for Num {
    fn spec_add(self, rhs: Self) -> Self {
        Num(self.0 + rhs.0)
    }
    fn spec_subtract(self, rhs: Self) -> Self {
        Num(self.0 - rhs.0)
    }
    fn spec_multiply(self, rhs: Self) -> Self {
        Num(self.0 * rhs.0)
    }
    fn spec_divide(self, rhs: Self) -> Self {
        Num(self.0 / rhs.0)
    }
    fn spec_negate(self) -> Self {
        Num(self.0 * -1.0)
    }
    fn add(self, rhs: Self) -> Self {
        Num(self.0 + rhs.0)
    }
    fn subtract(self, rhs: Self) -> Self {
        Num(self.0 - rhs.0)
    }
    fn multiply(self, rhs: Self) -> Self {
        Num(self.0 * rhs.0)
    }
    fn divide(self, rhs: Self) -> Self {
        Num(self.0 / rhs.0)
    }
    fn negate(self) -> Self {
        Num(self.0 * -1.0)
    }
}

fn expression_chunk() -> Chunk<Num> {
    let mut chunk = Chunk::new();
    let const_index = chunk.add_constant(Num(2.2));
    chunk.write(OpCode::Constant(const_index), 123);
    let const_index = chunk.add_constant(Num(3.4));
    chunk.write(OpCode::Constant(const_index), 123);
    chunk.write(OpCode::Add, 123);
    let const_index = chunk.add_constant(Num(5.6));
    chunk.write(OpCode::Constant(const_index), 123);
    chunk.write(OpCode::Divide, 123);
    chunk.write(OpCode::Negate, 123);
    chunk.write(OpCode::Return, 123);
    chunk
}

#[test]
fn evaluates_negated_quotient() {
    let run = VM::init(expression_chunk()).interpret(false);
    assert_eq!(run.result, InterpretResult::Success);
    assert_eq!(run.output, vec![Num(-((2.2 + 3.4) / 5.6))]);
    assert_eq!(run.stack_top, 0);
    assert!(run.trace.is_empty());
}

#[test]
fn subtraction_takes_left_operand_first() {
    let mut chunk = Chunk::new();
    let a = chunk.add_constant(Num(10.0));
    let b = chunk.add_constant(Num(4.0));
    chunk.write(OpCode::Constant(a), 1);
    chunk.write(OpCode::Constant(b), 1);
    chunk.write(OpCode::Subtract, 1);
    chunk.write(OpCode::Return, 1);
    chunk.write(OpCode::Constant(a), 2);
    chunk.write(OpCode::Constant(b), 2);
    chunk.write(OpCode::Multiply, 2);
    chunk.write(OpCode::Return, 2);
    let run = VM::init(chunk).interpret(false);
    assert_eq!(run.output, vec![Num(6.0), Num(40.0)]);
}

#[test]
fn division_by_zero_is_a_value() {
    let mut chunk = Chunk::new();
    let a = chunk.add_constant(Num(1.0));
    let z = chunk.add_constant(Num(0.0));
    chunk.write(OpCode::Constant(a), 1);
    chunk.write(OpCode::Constant(z), 1);
    chunk.write(OpCode::Divide, 1);
    chunk.write(OpCode::Return, 1);
    let run = VM::init(chunk).interpret(false);
    assert_eq!(run.result, InterpretResult::Success);
    assert!(run.output[0].0.is_infinite());
}

#[test]
fn constants_then_return_leave_n_minus_one() {
    for n in 1..4usize {
        let mut chunk = Chunk::new();
        for k in 0..n {
            let i = chunk.add_constant(Num(k as f64));
            chunk.write(OpCode::Constant(i), 1);
        }
        chunk.write(OpCode::Return, 1);
        let run = VM::init(chunk).interpret(false);
        assert_eq!(run.result, InterpretResult::Success);
        assert_eq!(run.stack_top, n - 1);
        assert_eq!(run.output, vec![Num((n - 1) as f64)]);
    }
}

#[test]
fn pop_on_empty_stack_is_a_runtime_error() {
    let mut chunk: Chunk<Num> = Chunk::new();
    chunk.write(OpCode::Return, 1);
    let run = VM::init(chunk).interpret(false);
    assert_eq!(run.result, InterpretResult::RuntimeError);
    assert!(run.output.is_empty());

    let mut chunk = Chunk::new();
    let a = chunk.add_constant(Num(1.0));
    chunk.write(OpCode::Constant(a), 1);
    chunk.write(OpCode::Add, 1);
    let run = VM::init(chunk).interpret(false);
    assert_eq!(run.result, InterpretResult::RuntimeError);
    assert_eq!(run.stack_top, 1);

    let mut chunk: Chunk<Num> = Chunk::new();
    chunk.write(OpCode::Negate, 1);
    assert_eq!(VM::init(chunk).interpret(false).result, InterpretResult::RuntimeError);
}

#[test]
fn push_on_full_stack_is_a_runtime_error() {
    let mut chunk = Chunk::new();
    let a = chunk.add_constant(Num(1.0));
    for _ in 0..STACK_MAX {
        chunk.write(OpCode::Constant(a), 1);
    }
    let run = VM::init(chunk).interpret(false);
    assert_eq!(run.result, InterpretResult::Success);
    assert_eq!(run.stack_top, 256);

    let mut chunk = Chunk::new();
    let a = chunk.add_constant(Num(1.0));
    for _ in 0..STACK_MAX + 1 {
        chunk.write(OpCode::Constant(a), 1);
    }
    chunk.write(OpCode::Return, 1);
    let run = VM::init(chunk).interpret(true);
    assert_eq!(run.result, InterpretResult::RuntimeError);
    assert_eq!(run.stack_top, 256);
    assert!(run.output.is_empty());
    assert_eq!(run.trace.len(), 257);
}

#[test]
fn trace_snapshots_precede_each_instruction() {
    let run = VM::init(expression_chunk()).interpret(true);
    assert_eq!(run.trace.len(), 7);
    let depths: Vec<usize> = run.trace.iter().map(|s| s.stack.len()).collect();
    assert_eq!(depths, vec![0, 1, 2, 1, 2, 1, 1]);
    assert_eq!(run.trace[3].stack, vec![Num(2.2 + 3.4)]);
    assert_eq!(run.trace[6].offset, 6);
    assert_eq!(run.trace[6].printed, 0);
}

#[test]
fn constants_get_distinct_indices() {
    let mut chunk = Chunk::new();
    assert_eq!(chunk.add_constant(Num(1.0)), 0);
    assert_eq!(chunk.add_constant(Num(1.0)), 1);
    assert_eq!(chunk.constants.len(), 2);
    chunk.write(OpCode::Constant(1), 7);
    assert_eq!(chunk.lines, vec![7]);
}

#[test]
fn disassembly_marks_repeated_lines() {
    let mut chunk = Chunk::new();
    let i = chunk.add_constant(Num(1.5));
    chunk.write(OpCode::Constant(i), 123);
    chunk.write(OpCode::Negate, 123);
    chunk.write(OpCode::Return, -4);
    assert_eq!(chunk.disassemble_instruction(0), "0000  123 OP_CONSTANT    index->0  value->");
    assert_eq!(chunk.disassemble_instruction(1), "0001    | OP_NEGATE");
    assert_eq!(chunk.disassemble_instruction(2), "0002   -4 OP_RETURN");
    let listing = chunk.disassemble_chunk("test chunk");
    assert_eq!(listing.len(), 4);
    assert_eq!(listing[0], "== test chunk ==");
    assert_eq!(listing[2], "0001    | OP_NEGATE");
}

#[test]
fn multiply_then_negate() {
    let mut chunk = Chunk::new();
    let a = chunk.add_constant(Num(1.5));
    let b = chunk.add_constant(Num(4.0));
    chunk.write(OpCode::Constant(a), 1);
    chunk.write(OpCode::Constant(b), 1);
    chunk.write(OpCode::Multiply, 1);
    chunk.write(OpCode::Negate, 1);
    chunk.write(OpCode::Return, 1);
    let run = VM::init(chunk).interpret(false);
    assert_eq!(run.output, vec![Num(-6.0)]);
}

#[test]
fn five_minus_three() {
    let mut chunk = Chunk::new();
    let a = chunk.add_constant(Num(5.0));
    let b = chunk.add_constant(Num(3.0));
    chunk.write(OpCode::Constant(a), 1);
    chunk.write(OpCode::Constant(b), 1);
    chunk.write(OpCode::Subtract, 1);
    chunk.write(OpCode::Return, 1);
    let run = VM::init(chunk).interpret(false);
    assert_eq!(run.output, vec![Num(2.0)]);
}
