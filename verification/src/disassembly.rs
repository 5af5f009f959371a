//! The disassembler: a chunk written out, one line for each instruction.

use crate::common::{Chunk, ChunkView, Op};
use crate::text::{hex_text, push_hex, push_text};
use vstd::prelude::*;

verus! {

/// The name of an opcode in a listing.
pub open spec fn mnemonic(op: Op) -> Seq<char> {
    match op {
        Op::Return => "return"@,
        Op::Pop => "pop"@,
        Op::LoadTrue => "load_true"@,
        Op::Negate => "negate"@,
        Op::Add => "add"@,
        Op::Subtract => "subtract"@,
        Op::Multiply => "multiply"@,
        Op::Divide => "divide"@,
        Op::IsEqual => "is_equal"@,
        Op::LoadConstant => "load_constant"@,
        Op::SetGlobal => "set_global"@,
        Op::GetGlobal => "get_global"@,
        Op::SetLocal => "set_local"@,
        Op::GetLocal => "get_local"@,
        Op::GetUpvalue => "get_upvalue"@,
        Op::SetUpvalue => "set_upvalue"@,
        Op::Call => "call"@,
        Op::MakeClosure => "make_closure"@,
        Op::JumpIfFalse => "jump_if_false"@,
        Op::Jump => "jump"@,
        Op::AbsJump => "abs_jump"@,
    }
}

fn mnemonic_of(op: Op) -> (s: &'static str)
    ensures
        s@ == mnemonic(op),
{
    match op {
        Op::Return => "return",
        Op::Pop => "pop",
        Op::LoadTrue => "load_true",
        Op::Negate => "negate",
        Op::Add => "add",
        Op::Subtract => "subtract",
        Op::Multiply => "multiply",
        Op::Divide => "divide",
        Op::IsEqual => "is_equal",
        Op::LoadConstant => "load_constant",
        Op::SetGlobal => "set_global",
        Op::GetGlobal => "get_global",
        Op::SetLocal => "set_local",
        Op::GetLocal => "get_local",
        Op::GetUpvalue => "get_upvalue",
        Op::SetUpvalue => "set_upvalue",
        Op::Call => "call",
        Op::MakeClosure => "make_closure",
        Op::JumpIfFalse => "jump_if_false",
        Op::Jump => "jump",
        Op::AbsJump => "abs_jump",
    }
}

impl ChunkView {
    /// The constant `k` written out; a question mark if there is none.
    pub open spec fn constant_text(self, k: int) -> Seq<char> {
        if 0 <= k < self.constants.len() {
            self.constants[k].text()
        } else {
            "?"@
        }
    }

    /// The bytes `code[from .. to]`, each in base sixteen behind a blank.
    pub open spec fn bytes_text(self, from: int, to: int) -> Seq<char>
        decreases to - from,
    {
        if from >= to {
            Seq::empty()
        } else {
            " "@ + hex_text(self.code[from] as nat) + self.bytes_text(from + 1, to)
        }
    }

    /// The operands of the instruction `op` at `i`, written out.
    pub open spec fn operands_text(self, op: Op, i: int) -> Seq<char> {
        let k = self.code[i + 1] as int;
        match op {
            Op::LoadConstant => " "@ + hex_text(k as nat) + " ("@ + self.constant_text(k) + ")"@,
            Op::SetGlobal | Op::GetGlobal => " "@ + self.constant_text(k),
            Op::SetLocal | Op::GetLocal | Op::GetUpvalue | Op::SetUpvalue | Op::Call => " "@
                + hex_text(k as nat),
            Op::MakeClosure => self.bytes_text(i + 1, i + self.width_at(i)),
            Op::JumpIfFalse | Op::Jump | Op::AbsJump => " "@ + hex_text(self.double_at(i + 1)),
            _ => Seq::empty(),
        }
    }

    /// The instruction at `i` written out, and the number of bytes that
    /// it takes.
    pub open spec fn instruction_text(self, i: int) -> (Seq<char>, int) {
        match Op::decode(self.code[i]) {
            None => ("unknown"@ + self.bytes_text(i, i + 1), 1),
            Some(op) => if i + self.width_at(i) > self.code.len() {
                (mnemonic(op) + " <truncated>"@, self.code.len() - i)
            } else {
                (mnemonic(op) + self.operands_text(op, i), self.width_at(i))
            },
        }
    }

    /// The constants `k ..` written out, a comma and a blank between
    /// them.
    pub open spec fn constants_text(self, k: int) -> Seq<char>
        decreases self.constants.len() - k,
    {
        if k < 0 || k >= self.constants.len() {
            Seq::empty()
        } else if k + 1 == self.constants.len() {
            self.constants[k].text()
        } else {
            self.constants[k].text() + ", "@ + self.constants_text(k + 1)
        }
    }

    /// The line for the instruction at `i`.
    pub open spec fn line(self, i: int) -> Seq<char> {
        "| "@ + hex_text(i as nat) + " : "@ + self.instruction_text(i).0
    }

    /// The lines for the instructions from `i` on.
    pub open spec fn lines_from(self, i: int) -> Seq<Seq<char>>
        decreases self.code.len() - i,
    {
        if i < 0 || i >= self.code.len() || self.instruction_text(i).1 < 1 {
            Seq::empty()
        } else {
            seq![self.line(i)] + self.lines_from(i + self.instruction_text(i).1)
        }
    }

    /// The listing: the constants in one line, then the instructions.
    pub open spec fn listing(self) -> Seq<Seq<char>> {
        seq!["Constants: ["@ + self.constants_text(0) + "]"@] + self.lines_from(0)
    }
}

/// The models of a sequence of strings, element by element.
pub open spec fn lines_view(s: Seq<String>) -> Seq<Seq<char>> {
    Seq::new(s.len(), |i: int| s[i]@)
}

impl Chunk {
    /// The number of bytes that the instruction at `i` takes, if the
    /// code holds them all.
    fn width_at(&self, i: usize) -> (w: Option<usize>)
        requires
            i < self.code.len(),
        ensures
            match w {
                Some(w) => w == self@.width_at(i as int) && 1 <= w <= self.code.len() - i,
                None => self@.width_at(i as int) > self.code.len() - i,
            },
    {
        let left = self.code.len() - i;
        let w: usize = match Op::try_from_u8(self.code[i]) {
            None => 1,
            Some(Op::MakeClosure) => {
                if left < 2 {
                    return None;
                }
                let k = self.code[i + 1] as usize;
                let n: usize = if k < self.constants.len() {
                    match &self.constants[k] {
                        crate::value::Value::Function(f) => f.upvalue_count,
                        _ => 0,
                    }
                } else {
                    0
                };
                if n > (left - 2) / 2 {
                    return None;
                }
                2 + 2 * n
            },
            Some(op) => op.width(),
        };
        if w > left {
            None
        } else {
            Some(w)
        }
    }

    fn push_bytes(&self, s: &mut String, from: usize, to: usize)
        requires
            from <= to <= self.code.len(),
        ensures
            final(s)@ == old(s)@ + self@.bytes_text(from as int, to as int),
        decreases to - from,
    {
        if from < to {
            push_text(s, " ");
            push_hex(s, self.code[from] as u64);
            self.push_bytes(s, from + 1, to);
            assert(s@ =~= old(s)@ + self@.bytes_text(from as int, to as int));
        } else {
            assert(s@ =~= old(s)@ + self@.bytes_text(from as int, to as int));
        }
    }

    fn push_constant(&self, s: &mut String, k: usize)
        ensures
            final(s)@ == old(s)@ + self@.constant_text(k as int),
    {
        if k < self.constants.len() {
            let t = self.constants[k].to_text();
            push_text(s, t.as_str());
        } else {
            push_text(s, "?");
        }
    }

    /// Writes the instruction at `i` out, and says how many bytes it
    /// takes. An instruction whose operands the code does not hold is
    /// written as truncated and takes the rest of the code.
    pub fn disassemble_at(&self, i: usize) -> (r: (String, usize))
        requires
            i < self.code.len(),
        ensures
            (r.0@, r.1 as int) == self@.instruction_text(i as int),
            1 <= r.1 <= self.code.len() - i,
    {
        let mut s = String::new();
        let op = match Op::try_from_u8(self.code[i]) {
            None => {
                push_text(&mut s, "unknown");
                self.push_bytes(&mut s, i, i + 1);
                assert(s@ =~= "unknown"@ + self@.bytes_text(i as int, i + 1));
                return (s, 1);
            },
            Some(op) => op,
        };
        push_text(&mut s, mnemonic_of(op));
        let w = match self.width_at(i) {
            Some(w) => w,
            None => {
                push_text(&mut s, " <truncated>");
                assert(s@ =~= mnemonic(op) + " <truncated>"@);
                return (s, self.code.len() - i);
            },
        };
        match op {
            Op::LoadConstant => {
                let k = self.code[i + 1] as usize;
                push_text(&mut s, " ");
                push_hex(&mut s, k as u64);
                push_text(&mut s, " (");
                self.push_constant(&mut s, k);
                push_text(&mut s, ")");
            },
            Op::SetGlobal | Op::GetGlobal => {
                let k = self.code[i + 1] as usize;
                push_text(&mut s, " ");
                self.push_constant(&mut s, k);
            },
            Op::SetLocal | Op::GetLocal | Op::GetUpvalue | Op::SetUpvalue | Op::Call => {
                let k = self.code[i + 1] as usize;
                push_text(&mut s, " ");
                push_hex(&mut s, k as u64);
            },
            Op::MakeClosure => {
                self.push_bytes(&mut s, i + 1, i + w);
            },
            Op::JumpIfFalse | Op::Jump | Op::AbsJump => {
                let d = self.read_byte_double(i + 1);
                push_text(&mut s, " ");
                push_hex(&mut s, d as u64);
            },
            _ => {},
        }
        assert(s@ =~= mnemonic(op) + self@.operands_text(op, i as int));
        (s, w)
    }

    /// The listing of the chunk: its constants in one line, then one line
    /// for each instruction with its address before it.
    pub fn disassemble(&self) -> (lines: Vec<String>)
        ensures
            lines_view(lines@) == self@.listing(),
    {
        let mut head = String::new();
        push_text(&mut head, "Constants: [");
        let mut k: usize = 0;
        let ghost begun = head@;
        assert(begun =~= "Constants: ["@);
        while k < self.constants.len()
            invariant
                k <= self.constants.len(),
                head@ + self@.constants_text(k as int) == begun + self@.constants_text(0),
            decreases self.constants.len() - k,
        {
            let ghost before = head@;
            let t = self.constants[k].to_text();
            push_text(&mut head, t.as_str());
            if k + 1 < self.constants.len() {
                push_text(&mut head, ", ");
                assert(head@ + self@.constants_text(k + 1) =~= before + self@.constants_text(
                    k as int,
                ));
            } else {
                assert(self@.constants_text(k + 1) =~= Seq::empty());
                assert(head@ + self@.constants_text(k + 1) =~= before + self@.constants_text(
                    k as int,
                ));
            }
            k += 1;
        }
        assert(self@.constants_text(k as int) =~= Seq::empty());
        assert(head@ =~= begun + self@.constants_text(0));
        push_text(&mut head, "]");
        let mut lines: Vec<String> = Vec::new();
        lines.push(head);
        assert(lines_view(lines@) =~= seq!["Constants: ["@ + self@.constants_text(0) + "]"@]);
        let mut i: usize = 0;
        assert(lines_view(lines@) + self@.lines_from(0) =~= self@.listing());
        while i < self.code.len()
            invariant
                i <= self.code.len(),
                lines_view(lines@) + self@.lines_from(i as int) == self@.listing(),
            decreases self.code.len() - i,
        {
            let ghost done = lines_view(lines@);
            let (text, w) = self.disassemble_at(i);
            let mut line = String::new();
            push_text(&mut line, "| ");
            push_hex(&mut line, i as u64);
            push_text(&mut line, " : ");
            push_text(&mut line, text.as_str());
            assert(line@ =~= self@.line(i as int));
            lines.push(line);
            assert(lines_view(lines@) =~= done.push(self@.line(i as int)));
            assert(done.push(self@.line(i as int)) + self@.lines_from(i + w) =~= done + (
            seq![self@.line(i as int)] + self@.lines_from(i + w)));
            i += w;
        }
        assert(self@.lines_from(i as int) =~= Seq::empty());
        assert(lines_view(lines@) + Seq::<Seq<char>>::empty() =~= lines_view(lines@));
        lines
    }
}

} // verus!
