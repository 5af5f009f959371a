//! What the compiler and the machine share: the instruction set, the chunk
//! of code with its constant pool, and the tree that the compiler consumes.

use crate::value::{values_view, Value, ValueView};
use vstd::prelude::*;

verus! {

/// The closed instruction set. An instruction is one opcode byte followed
/// by its operands; `width` gives the bytes it takes.
#[derive(Clone, Copy, Debug, PartialEq, Eq, Structural)]
pub enum Op {
    // one byte
    Return,
    Pop,
    LoadTrue,
    Negate,
    Add,
    Subtract,
    Multiply,
    Divide,
    IsEqual,
    // two bytes: the operand is a constant index, a slot or a count
    LoadConstant,
    SetGlobal,
    GetGlobal,
    SetLocal,
    GetLocal,
    GetUpvalue,
    SetUpvalue,
    Call,
    MakeClosure,
    // three bytes: the operand is a big-endian 16-bit number
    JumpIfFalse,
    Jump,
    AbsJump,
}

/// The number of opcodes; the opcode bytes are `0 .. OP_COUNT`.
pub const OP_COUNT: u8 = 21;

impl Op {
    /// The byte that encodes this opcode.
    pub open spec fn byte(self) -> u8 {
        match self {
            Op::Return => 0,
            Op::Pop => 1,
            Op::LoadTrue => 2,
            Op::Negate => 3,
            Op::Add => 4,
            Op::Subtract => 5,
            Op::Multiply => 6,
            Op::Divide => 7,
            Op::IsEqual => 8,
            Op::LoadConstant => 9,
            Op::SetGlobal => 10,
            Op::GetGlobal => 11,
            Op::SetLocal => 12,
            Op::GetLocal => 13,
            Op::GetUpvalue => 14,
            Op::SetUpvalue => 15,
            Op::Call => 16,
            Op::MakeClosure => 17,
            Op::JumpIfFalse => 18,
            Op::Jump => 19,
            Op::AbsJump => 20,
        }
    }

    /// The opcode that a byte encodes, if it encodes one.
    pub open spec fn decode(b: u8) -> Option<Op> {
        if b == 0 {
            Some(Op::Return)
        } else if b == 1 {
            Some(Op::Pop)
        } else if b == 2 {
            Some(Op::LoadTrue)
        } else if b == 3 {
            Some(Op::Negate)
        } else if b == 4 {
            Some(Op::Add)
        } else if b == 5 {
            Some(Op::Subtract)
        } else if b == 6 {
            Some(Op::Multiply)
        } else if b == 7 {
            Some(Op::Divide)
        } else if b == 8 {
            Some(Op::IsEqual)
        } else if b == 9 {
            Some(Op::LoadConstant)
        } else if b == 10 {
            Some(Op::SetGlobal)
        } else if b == 11 {
            Some(Op::GetGlobal)
        } else if b == 12 {
            Some(Op::SetLocal)
        } else if b == 13 {
            Some(Op::GetLocal)
        } else if b == 14 {
            Some(Op::GetUpvalue)
        } else if b == 15 {
            Some(Op::SetUpvalue)
        } else if b == 16 {
            Some(Op::Call)
        } else if b == 17 {
            Some(Op::MakeClosure)
        } else if b == 18 {
            Some(Op::JumpIfFalse)
        } else if b == 19 {
            Some(Op::Jump)
        } else if b == 20 {
            Some(Op::AbsJump)
        } else {
            None
        }
    }

    /// The bytes that the opcode and its fixed operands take. A
    /// `MakeClosure` is followed by two more bytes for each captured
    /// variable, which this does not count.
    pub open spec fn spec_width(self) -> nat {
        match self {
            Op::Return
            | Op::Pop
            | Op::LoadTrue
            | Op::Negate
            | Op::Add
            | Op::Subtract
            | Op::Multiply
            | Op::Divide
            | Op::IsEqual => 1,
            Op::LoadConstant
            | Op::SetGlobal
            | Op::GetGlobal
            | Op::SetLocal
            | Op::GetLocal
            | Op::GetUpvalue
            | Op::SetUpvalue
            | Op::Call
            | Op::MakeClosure => 2,
            Op::JumpIfFalse | Op::Jump | Op::AbsJump => 3,
        }
    }

    /// Encoding and decoding are inverse to each other.
    pub(crate) proof fn lemma_codec(self)
        ensures
            Op::decode(self.byte()) == Some(self),
            self.byte() < OP_COUNT,
    {
    }

    /// The byte that encodes this opcode.
    pub fn to_u8(self) -> (b: u8)
        ensures
            b == self.byte(),
    {
        match self {
            Op::Return => 0,
            Op::Pop => 1,
            Op::LoadTrue => 2,
            Op::Negate => 3,
            Op::Add => 4,
            Op::Subtract => 5,
            Op::Multiply => 6,
            Op::Divide => 7,
            Op::IsEqual => 8,
            Op::LoadConstant => 9,
            Op::SetGlobal => 10,
            Op::GetGlobal => 11,
            Op::SetLocal => 12,
            Op::GetLocal => 13,
            Op::GetUpvalue => 14,
            Op::SetUpvalue => 15,
            Op::Call => 16,
            Op::MakeClosure => 17,
            Op::JumpIfFalse => 18,
            Op::Jump => 19,
            Op::AbsJump => 20,
        }
    }

    /// Decodes a byte; `None` when no opcode has that byte.
    pub fn try_from_u8(byte: u8) -> (op: Option<Op>)
        ensures
            op == Op::decode(byte),
    {
        match byte {
            0 => Some(Op::Return),
            1 => Some(Op::Pop),
            2 => Some(Op::LoadTrue),
            3 => Some(Op::Negate),
            4 => Some(Op::Add),
            5 => Some(Op::Subtract),
            6 => Some(Op::Multiply),
            7 => Some(Op::Divide),
            8 => Some(Op::IsEqual),
            9 => Some(Op::LoadConstant),
            10 => Some(Op::SetGlobal),
            11 => Some(Op::GetGlobal),
            12 => Some(Op::SetLocal),
            13 => Some(Op::GetLocal),
            14 => Some(Op::GetUpvalue),
            15 => Some(Op::SetUpvalue),
            16 => Some(Op::Call),
            17 => Some(Op::MakeClosure),
            18 => Some(Op::JumpIfFalse),
            19 => Some(Op::Jump),
            20 => Some(Op::AbsJump),
            _ => None,
        }
    }

    /// Decodes a byte that is known to encode an opcode.
    #[inline]
    pub fn from_u8(byte: u8) -> (op: Op)
        requires
            byte < OP_COUNT,
        ensures
            Op::decode(byte) == Some(op),
            op.byte() == byte,
    {
        match Op::try_from_u8(byte) {
            Some(op) => op,
            None => Op::Return,
        }
    }

    /// The bytes that the opcode and its fixed operands take.
    pub fn width(self) -> (w: usize)
        ensures
            w == self.spec_width(),
    {
        match self {
            Op::Return
            | Op::Pop
            | Op::LoadTrue
            | Op::Negate
            | Op::Add
            | Op::Subtract
            | Op::Multiply
            | Op::Divide
            | Op::IsEqual => 1,
            Op::LoadConstant
            | Op::SetGlobal
            | Op::GetGlobal
            | Op::SetLocal
            | Op::GetLocal
            | Op::GetUpvalue
            | Op::SetUpvalue
            | Op::Call
            | Op::MakeClosure => 2,
            Op::JumpIfFalse | Op::Jump | Op::AbsJump => 3,
        }
    }
}

/// A byte-addressed code buffer together with a constant pool.
#[derive(Debug)]
pub struct Chunk {
    pub code: Vec<u8>,
    pub constants: Vec<Value>,
}

/// The mathematical model of a [`Chunk`].
pub struct ChunkView {
    pub code: Seq<u8>,
    pub constants: Seq<ValueView>,
}

impl View for Chunk {
    type V = ChunkView;

    open spec fn view(&self) -> ChunkView {
        ChunkView { code: self.code@, constants: values_view(self.constants@) }
    }
}

impl ChunkView {
    /// The big-endian 16-bit number in the two bytes at `i`.
    pub open spec fn double_at(self, i: int) -> nat {
        (self.code[i] as nat) * 256 + (self.code[i + 1] as nat)
    }

    /// The chunk with the two bytes at `i` holding `b`, big end first.
    pub open spec fn with_double(self, i: int, b: nat) -> ChunkView {
        ChunkView {
            code: self.code.update(i, (b / 256) as u8).update(i + 1, (b % 256) as u8),
            ..self
        }
    }
}

impl Chunk {
    /// A chunk of the code `code` with the constants `constants`.
    pub fn new(code: Vec<u8>, constants: Vec<Value>) -> (c: Chunk)
        ensures
            c.code == code,
            c.constants == constants,
    {
        Chunk { code, constants }
    }

    /// Reads the 16-bit operand stored at `i`.
    #[inline]
    pub fn read_byte_double(&self, i: usize) -> (b: usize)
        requires
            i + 1 < self.code.len(),
        ensures
            b == self@.double_at(i as int),
            b <= 0xffff,
    {
        let hi: usize = self.code[i] as usize;
        let lo: usize = self.code[i + 1] as usize;
        hi * 256 + lo
    }

    /// Stores `b` as the 16-bit operand at `i`.
    #[inline]
    pub fn write_byte_double(&mut self, i: usize, b: usize)
        requires
            i + 1 < old(self).code.len(),
            b <= 0xffff,
        ensures
            final(self)@ == old(self)@.with_double(i as int, b as nat),
            final(self)@.double_at(i as int) == b,
    {
        let hi: u8 = (b / 256) as u8;
        let lo: u8 = (b % 256) as u8;
        self.code[i] = hi;
        self.code[i + 1] = lo;
    }

    /// Appends `constant` to the pool and returns its index. The indices
    /// of the constants already in the pool do not change.
    pub fn add_constant(&mut self, constant: Value) -> (k: usize)
        ensures
            k == old(self)@.constants.len(),
            final(self)@.constants == old(self)@.constants.push(constant@),
            final(self)@.code == old(self)@.code,
    {
        self.constants.push(constant);
        assert(values_view(self.constants@) =~= values_view(old(self).constants@).push(constant@));
        self.constants.len() - 1
    }
}

impl Clone for Chunk {
    fn clone(&self) -> (r: Chunk)
        ensures
            r@ == self@,
        decreases self,
    {
        let code = self.code.clone();
        let mut constants: Vec<Value> = Vec::new();
        let mut i: usize = 0;
        while i < self.constants.len()
            invariant
                i <= self.constants.len(),
                constants.len() == i,
                forall|j: int| 0 <= j < i ==> constants[j]@ == self.constants[j]@,
            decreases self.constants.len() - i,
        {
            constants.push(self.constants[i].clone());
            i += 1;
        }
        assert(values_view(constants@) =~= values_view(self.constants@));
        Chunk { code, constants }
    }
}

} // verus!

verus! {

/// The tree that the compiler consumes.
#[derive(Debug)]
pub enum Core {
    /// A literal value.
    Lit(Value),
    /// A function: the names of its parameters and its body.
    Lambda(Vec<String>, Box<Core>),
    /// The declaration of a variable with its first value.
    Let(String, Box<Core>),
    /// An assignment to a variable that exists.
    Assign(String, Box<Core>),
    /// The value of a variable.
    Get(String),
    /// A condition, what to do when it holds and what to do when not.
    If(Box<Core>, Box<Core>, Box<Core>),
    Loop(Box<Core>),
    Continue,
    Break,
    /// Expressions in a scope of their own, one after the other.
    Block(Vec<Core>),
    /// A callee and its arguments.
    Call(Box<Core>, Vec<Core>),
    Return(Box<Core>),
}

/// The mathematical model of a [`Core`] tree.
pub enum CoreView {
    Lit(ValueView),
    Lambda(Seq<Seq<char>>, Box<CoreView>),
    Let(Seq<char>, Box<CoreView>),
    Assign(Seq<char>, Box<CoreView>),
    Get(Seq<char>),
    If(Box<CoreView>, Box<CoreView>, Box<CoreView>),
    Loop(Box<CoreView>),
    Continue,
    Break,
    Block(Seq<CoreView>),
    Call(Box<CoreView>, Seq<CoreView>),
    Return(Box<CoreView>),
}

/// The models of a sequence of strings, element by element.
pub open spec fn names_view(s: Seq<String>) -> Seq<Seq<char>> {
    Seq::new(s.len(), |i: int| s[i]@)
}

/// The model of a tree.
pub open spec fn core_view(e: Core) -> CoreView
    decreases e,
{
    match e {
        Core::Lit(v) => CoreView::Lit(v@),
        Core::Lambda(params, body) => CoreView::Lambda(
            names_view(params@),
            Box::new(core_view(*body)),
        ),
        Core::Let(name, value) => CoreView::Let(name@, Box::new(core_view(*value))),
        Core::Assign(name, value) => CoreView::Assign(name@, Box::new(core_view(*value))),
        Core::Get(name) => CoreView::Get(name@),
        Core::If(c, t, e) => CoreView::If(
            Box::new(core_view(*c)),
            Box::new(core_view(*t)),
            Box::new(core_view(*e)),
        ),
        Core::Loop(body) => CoreView::Loop(Box::new(core_view(*body))),
        Core::Continue => CoreView::Continue,
        Core::Break => CoreView::Break,
        Core::Block(xs) => CoreView::Block(cores_view(xs@)),
        Core::Call(callee, args) => CoreView::Call(Box::new(core_view(*callee)), cores_view(args@)),
        Core::Return(x) => CoreView::Return(Box::new(core_view(*x))),
    }
}

/// The models of a sequence of trees, element by element.
pub open spec fn cores_view(s: Seq<Core>) -> Seq<CoreView>
    decreases s,
{
    Seq::new(
        s.len(),
        |i: int|
            if 0 <= i < s.len() {
                core_view(s[i])
            } else {
                CoreView::Break
            },
    )
}

impl View for Core {
    type V = CoreView;

    open spec fn view(&self) -> CoreView {
        core_view(*self)
    }
}

/// A copy of `names`.
pub fn clone_names(names: &Vec<String>) -> (r: Vec<String>)
    ensures
        names_view(r@) == names_view(names@),
{
    let mut r: Vec<String> = Vec::new();
    let mut i: usize = 0;
    while i < names.len()
        invariant
            i <= names.len(),
            r.len() == i,
            forall|j: int| 0 <= j < i ==> r[j]@ == names[j]@,
        decreases names.len() - i,
    {
        r.push(names[i].clone());
        i += 1;
    }
    assert(names_view(r@) =~= names_view(names@));
    r
}

/// A copy of `xs`.
pub fn clone_cores(xs: &Vec<Core>) -> (r: Vec<Core>)
    ensures
        cores_view(r@) == cores_view(xs@),
    decreases xs,
{
    let mut r: Vec<Core> = Vec::new();
    let mut i: usize = 0;
    while i < xs.len()
        invariant
            i <= xs.len(),
            r.len() == i,
            forall|j: int| 0 <= j < i ==> r[j]@ == xs[j]@,
        decreases xs.len() - i,
    {
        r.push(xs[i].clone());
        i += 1;
    }
    assert(cores_view(r@) =~= cores_view(xs@));
    r
}

impl Clone for Core {
    fn clone(&self) -> (r: Core)
        ensures
            r@ == self@,
        decreases self,
    {
        match self {
            Core::Lit(v) => Core::Lit(v.clone()),
            Core::Lambda(params, body) => Core::Lambda(
                clone_names(params),
                Box::new((&**body).clone()),
            ),
            Core::Let(name, value) => Core::Let(name.clone(), Box::new((&**value).clone())),
            Core::Assign(name, value) => Core::Assign(name.clone(), Box::new((&**value).clone())),
            Core::Get(name) => Core::Get(name.clone()),
            Core::If(c, t, e) => Core::If(
                Box::new((&**c).clone()),
                Box::new((&**t).clone()),
                Box::new((&**e).clone()),
            ),
            Core::Loop(body) => Core::Loop(Box::new((&**body).clone())),
            Core::Continue => Core::Continue,
            Core::Break => Core::Break,
            Core::Block(xs) => Core::Block(clone_cores(xs)),
            Core::Call(callee, args) => Core::Call(
                Box::new((&**callee).clone()),
                clone_cores(args),
            ),
            Core::Return(x) => Core::Return(Box::new((&**x).clone())),
        }
    }
}

} // verus!
