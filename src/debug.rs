use vstd::prelude::*;
use vstd::string::StringExecFns;
use crate::chunk::Chunk;
use crate::opcode::OpCode;
use crate::text::{decimal, pad_left, push_decimal, push_padded, push_signed_width4, signed_decimal};

verus! {

pub open spec fn mnemonic(op: OpCode) -> Seq<char> {
    match op {
        OpCode::Constant(_) => "OP_CONSTANT"@,
        OpCode::Add => "OP_ADD"@,
        OpCode::Subtract => "OP_SUBTRACT"@,
        OpCode::Multiply => "OP_MULTIPLY"@,
        OpCode::Divide => "OP_DIVIDE"@,
        OpCode::Negate => "OP_NEGATE"@,
        OpCode::Return => "OP_RETURN"@,
    }
}

/// The marker that stands for "same line as the previous instruction".
pub open spec fn continuation() -> Seq<char> {
    "   | "@
}

/// The line column of the instruction at `offset`: the continuation marker
/// when its line equals the previous instruction's, else the line number
/// right-aligned in four characters and a space.
pub open spec fn line_column(lines: Seq<i8>, offset: int) -> Seq<char> {
    if offset > 0 && lines[offset] == lines[offset - 1] {
        continuation()
    } else {
        pad_left(signed_decimal(lines[offset] as int), 4, ' ') + seq![' ']
    }
}

/// The listing of the instruction at `offset`: the offset in four digits
/// padded with zeros, the line column and the mnemonic; a constant load adds
/// its pool index and a label after which the value is to be written.
pub open spec fn instruction_text(code: Seq<OpCode>, lines: Seq<i8>, offset: int) -> Seq<char> {
    let head = pad_left(decimal(offset as nat), 4, '0') + seq![' '] + line_column(lines, offset)
        + mnemonic(code[offset]);
    match code[offset] {
        OpCode::Constant(i) => head + "    index->"@ + decimal(i as nat) + "  value->"@,
        _ => head,
    }
}

impl<V> Chunk<V> {
    /// Renders the instruction at `offset`. For a constant load the text
    /// ends with the label of the value, which the caller writes after it.
    pub fn disassemble_instruction(&self, offset: usize) -> (r: String)
        requires
            self.wf(),
            offset < self.code@.len(),
        ensures
            r@ == instruction_text(self.code@, self.lines@, offset as int),
    {
        let mut out = String::new();
        push_padded(&mut out, offset, 4, '0');
        out.append(" ");
        if offset > 0 && self.lines[offset] == self.lines[offset - 1] {
            out.append("   | ");
        } else {
            push_signed_width4(&mut out, self.lines[offset]);
            out.append(" ");
        }
        let instruction = self.code[offset];
        match instruction {
            OpCode::Constant(const_index) => {
                out.append("OP_CONSTANT");
                out.append("    index->");
                push_decimal(&mut out, const_index);
                out.append("  value->");
            },
            OpCode::Add => out.append("OP_ADD"),
            OpCode::Subtract => out.append("OP_SUBTRACT"),
            OpCode::Multiply => out.append("OP_MULTIPLY"),
            OpCode::Divide => out.append("OP_DIVIDE"),
            OpCode::Negate => out.append("OP_NEGATE"),
            OpCode::Return => out.append("OP_RETURN"),
        }
        proof {
            reveal_strlit(" ");
        }
        assert(out@ =~= instruction_text(self.code@, self.lines@, offset as int));
        out
    }

    /// Renders a header naming the chunk, then every instruction in order.
    pub fn disassemble_chunk(&self, name: &str) -> (r: Vec<String>)
        requires
            self.wf(),
        ensures
            r@.len() == self.code@.len() + 1,
            r@[0]@ == "== "@ + name@ + " =="@,
            forall|i: int|
                0 <= i < self.code@.len() ==> (#[trigger] r@[i + 1])@ == instruction_text(
                    self.code@,
                    self.lines@,
                    i,
                ),
    {
        let mut header = String::new();
        header.append("== ");
        header.append(name);
        header.append(" ==");
        let mut r: Vec<String> = Vec::new();
        r.push(header);
        let mut offset: usize = 0;
        while offset < self.code.len()
            invariant
                self.wf(),
                offset <= self.code@.len(),
                r@.len() == offset + 1,
                r@[0]@ == "== "@ + name@ + " =="@,
                forall|i: int|
                    0 <= i < offset ==> (#[trigger] r@[i + 1])@ == instruction_text(
                        self.code@,
                        self.lines@,
                        i,
                    ),
            decreases self.code@.len() - offset,
        {
            let line = self.disassemble_instruction(offset);
            r.push(line);
            offset = offset + 1;
        }
        r
    }
}


/// Of two consecutive instructions on the same source line, the second is
/// listed with the continuation marker instead of its line number; on
/// different lines it shows the number.
pub proof fn lemma_same_line_continues(code: Seq<OpCode>, lines: Seq<i8>, offset: int)
    requires
        0 < offset < lines.len(),
        lines.len() == code.len(),
    ensures
        lines[offset] == lines[offset - 1] ==> line_column(lines, offset) == continuation(),
        lines[offset] == lines[offset - 1] ==> instruction_text(code, lines, offset) == {
            let head = pad_left(decimal(offset as nat), 4, '0') + seq![' '] + continuation()
                + mnemonic(code[offset]);
            match code[offset] {
                OpCode::Constant(i) => head + "    index->"@ + decimal(i as nat) + "  value->"@,
                _ => head,
            }
        },
        lines[offset] != lines[offset - 1] ==> line_column(lines, offset) == pad_left(
            signed_decimal(lines[offset] as int),
            4,
            ' ',
        ) + seq![' '],
{
}

} // verus!
