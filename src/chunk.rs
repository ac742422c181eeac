use vstd::prelude::*;
use crate::opcode::OpCode;

verus! {

/// A unit of bytecode: instructions, the line of each, and a constant pool.
pub struct Chunk<V> {
    pub code: Vec<OpCode>,
    pub constants: Vec<V>,
    pub lines: Vec<i8>,
}

/// Whether `op` may stand in a chunk whose pool holds `n` constants.
pub open spec fn fits_pool(op: OpCode, n: nat) -> bool {
    match op {
        OpCode::Constant(i) => i < n,
        _ => true,
    }
}

impl<V> Chunk<V> {
    /// One line per instruction, and every constant load within the pool.
    pub open spec fn wf(&self) -> bool {
        &&& self.lines@.len() == self.code@.len()
        &&& forall|i: int| 0 <= i < self.code@.len() ==> fits_pool(#[trigger] self.code@[i], self.constants@.len())
    }

    pub fn new() -> (r: Self)
        ensures
            r.wf(),
            r.code@.len() == 0,
            r.constants@.len() == 0,
            r.lines@.len() == 0,
    {
        Chunk { code: Vec::new(), constants: Vec::new(), lines: Vec::new() }
    }

    /// Appends an instruction together with its source line.
    pub fn write(&mut self, byte: OpCode, line: i8)
        requires
            old(self).wf(),
            fits_pool(byte, old(self).constants@.len()),
        ensures
            final(self).wf(),
            final(self).code@ == old(self).code@.push(byte),
            final(self).lines@ == old(self).lines@.push(line),
            final(self).constants@ == old(self).constants@,
    {
        self.code.push(byte);
        self.lines.push(line);
    }

    /// Appends a value to the constant pool and returns its index; equal
    /// values added twice get distinct indices.
    pub fn add_constant(&mut self, value: V) -> (r: usize)
        requires
            old(self).wf(),
            old(self).constants@.len() < usize::MAX,
        ensures
            final(self).wf(),
            r == old(self).constants@.len(),
            final(self).constants@ == old(self).constants@.push(value),
            final(self).code@ == old(self).code@,
            final(self).lines@ == old(self).lines@,
    {
        self.constants.push(value);
        assert(forall|i: int| 0 <= i < self.code@.len() ==> fits_pool(#[trigger] self.code@[i], old(self).constants@.len()));
        self.constants.len() - 1
    }
}

} // verus!
