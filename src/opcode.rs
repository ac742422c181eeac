use vstd::prelude::*;

verus! {

/// One bytecode instruction.
#[derive(Debug, Clone, Copy, PartialEq, Eq, Structural)]
pub enum OpCode {
    /// Push the constant at this index of the pool.
    Constant(usize),
    Add,
    Subtract,
    Multiply,
    Divide,
    Negate,
    Return,
}

/// The four binary arithmetic operators.
#[derive(Debug, Clone, Copy, PartialEq, Eq, Structural)]
pub enum BinaryOp {
    Add,
    Substract,
    Multiply,
    Divide,
}

/// The arithmetic that the machine performs on its runtime values. Each
/// operation is named by a spec function, and the machine's contracts speak
/// of those names.
pub trait Value: Copy {
    spec fn spec_add(self, rhs: Self) -> Self;

    spec fn spec_subtract(self, rhs: Self) -> Self;

    spec fn spec_multiply(self, rhs: Self) -> Self;

    spec fn spec_divide(self, rhs: Self) -> Self;

    spec fn spec_negate(self) -> Self;

    fn add(self, rhs: Self) -> (r: Self)
        ensures
            r == self.spec_add(rhs),
    ;

    fn subtract(self, rhs: Self) -> (r: Self)
        ensures
            r == self.spec_subtract(rhs),
    ;

    fn multiply(self, rhs: Self) -> (r: Self)
        ensures
            r == self.spec_multiply(rhs),
    ;

    fn divide(self, rhs: Self) -> (r: Self)
        ensures
            r == self.spec_divide(rhs),
    ;

    /// The value multiplied by minus one.
    fn negate(self) -> (r: Self)
        ensures
            r == self.spec_negate(),
    ;
}

/// `a op b`, with `a` the left operand.
pub open spec fn apply_op<V: Value>(op: BinaryOp, a: V, b: V) -> V {
    match op {
        BinaryOp::Add => a.spec_add(b),
        BinaryOp::Substract => a.spec_subtract(b),
        BinaryOp::Multiply => a.spec_multiply(b),
        BinaryOp::Divide => a.spec_divide(b),
    }
}

/// The binary operator that an instruction performs, if it is one.
pub open spec fn binary_of(op: OpCode) -> Option<BinaryOp> {
    match op {
        OpCode::Add => Some(BinaryOp::Add),
        OpCode::Subtract => Some(BinaryOp::Substract),
        OpCode::Multiply => Some(BinaryOp::Multiply),
        OpCode::Divide => Some(BinaryOp::Divide),
        _ => None,
    }
}

} // verus!
