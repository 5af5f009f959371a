//! The value model: the tagged union that the machine computes with, the
//! compile-time function record and the run-time closure record.

use crate::common::{Chunk, ChunkView};
use vstd::prelude::*;

verus! {

/// A handle to a shared mutable cell. The cells live in the heap of the
/// machine that created them; two equal handles name the same cell.
pub type HeapedData = usize;

/// The compile-time function record.
#[derive(Debug)]
pub struct Function {
    pub arity: usize,
    pub upvalue_count: usize,
    pub chunk: Chunk,
}

/// The run-time closure record: a function and the cells it closes over.
#[derive(Debug)]
pub struct Closure {
    pub function: Function,
    pub upvalues: Vec<HeapedData>,
}

/// A value of the language. `Float` carries an IEEE-754 double as its bit
/// pattern; the machine never looks inside it.
#[derive(Debug)]
pub enum Value {
    Nil,
    Bool(bool),
    Float(u64),
    Int(isize),
    Str(String),
    Closure(Closure),
    Function(Function),
    HeapedData(HeapedData),
    Native(String),
}

/// The mathematical model of a [`Function`].
pub struct FunctionView {
    pub arity: nat,
    pub upvalue_count: nat,
    pub chunk: ChunkView,
}

/// The mathematical model of a [`Closure`].
pub struct ClosureView {
    pub function: FunctionView,
    pub upvalues: Seq<usize>,
}

/// The mathematical model of a [`Value`].
pub enum ValueView {
    Nil,
    Bool(bool),
    Float(u64),
    Int(int),
    Str(Seq<char>),
    Closure(ClosureView),
    Function(FunctionView),
    HeapedData(usize),
    Native(Seq<char>),
}

/// The model of one value.
pub open spec fn value_view(v: Value) -> ValueView
    decreases v,
{
    match v {
        Value::Nil => ValueView::Nil,
        Value::Bool(b) => ValueView::Bool(b),
        Value::Float(x) => ValueView::Float(x),
        Value::Int(i) => ValueView::Int(i as int),
        Value::Str(s) => ValueView::Str(s@),
        Value::Closure(c) => ValueView::Closure(
            ClosureView { function: function_view(c.function), upvalues: c.upvalues@ },
        ),
        Value::Function(f) => ValueView::Function(function_view(f)),
        Value::HeapedData(h) => ValueView::HeapedData(h),
        Value::Native(s) => ValueView::Native(s@),
    }
}

/// The model of a function record.
pub open spec fn function_view(f: Function) -> FunctionView
    decreases f,
{
    FunctionView {
        arity: f.arity as nat,
        upvalue_count: f.upvalue_count as nat,
        chunk: ChunkView { code: f.chunk.code@, constants: values_view(f.chunk.constants@) },
    }
}

/// The models of a sequence of values, element by element.
pub open spec fn values_view(s: Seq<Value>) -> Seq<ValueView>
    decreases s,
{
    Seq::new(
        s.len(),
        |i: int|
            if 0 <= i < s.len() {
                value_view(s[i])
            } else {
                ValueView::Nil
            },
    )
}

impl View for Value {
    type V = ValueView;

    open spec fn view(&self) -> ValueView {
        value_view(*self)
    }
}

impl View for Function {
    type V = FunctionView;

    open spec fn view(&self) -> FunctionView {
        function_view(*self)
    }
}

impl View for Closure {
    type V = ClosureView;

    open spec fn view(&self) -> ClosureView {
        ClosureView { function: self.function@, upvalues: self.upvalues@ }
    }
}

} // verus!

verus! {

impl Function {
    /// A function of `arity` parameters that captures `upvalue_count`
    /// variables and runs `chunk`.
    pub fn new(arity: usize, upvalue_count: usize, chunk: Chunk) -> (f: Function)
        ensures
            f.arity == arity,
            f.upvalue_count == upvalue_count,
            f.chunk == chunk,
    {
        Function { arity, upvalue_count, chunk }
    }
}

impl Clone for Function {
    fn clone(&self) -> (r: Function)
        ensures
            r@ == self@,
        decreases self,
    {
        Function { arity: self.arity, upvalue_count: self.upvalue_count, chunk: self.chunk.clone() }
    }
}

impl Closure {
    /// A closure over `function` that has captured nothing yet.
    pub fn new(function: Function) -> (c: Closure)
        ensures
            c.function == function,
            c.upvalues@ == Seq::<usize>::empty(),
    {
        Closure { function, upvalues: Vec::new() }
    }
}

impl Clone for Closure {
    fn clone(&self) -> (r: Closure)
        ensures
            r@ == self@,
        decreases self,
    {
        let function = self.function.clone();
        let upvalues = self.upvalues.clone();
        Closure { function, upvalues }
    }
}

impl Clone for Value {
    fn clone(&self) -> (r: Value)
        ensures
            r@ == self@,
        decreases self,
    {
        match self {
            Value::Nil => Value::Nil,
            Value::Bool(b) => Value::Bool(*b),
            Value::Float(x) => Value::Float(*x),
            Value::Int(i) => Value::Int(*i),
            Value::Str(s) => Value::Str(s.clone()),
            Value::Closure(c) => Value::Closure(c.clone()),
            Value::Function(f) => Value::Function(f.clone()),
            Value::HeapedData(h) => Value::HeapedData(*h),
            Value::Native(s) => Value::Native(s.clone()),
        }
    }
}

} // verus!

verus! {

impl ValueView {
    /// Whether a conditional jump takes this value for false. Only the
    /// boolean false and the integer zero are.
    pub open spec fn is_falsey(self) -> bool {
        self == ValueView::Bool(false) || self == ValueView::Int(0)
    }
}

impl Value {
    /// Whether a conditional jump takes the value for false.
    pub fn is_falsey(&self) -> (b: bool)
        ensures
            b == self@.is_falsey(),
    {
        match self {
            Value::Bool(x) => !*x,
            Value::Int(i) => *i == 0,
            _ => false,
        }
    }
}

} // verus!

verus! {

impl ValueView {
    /// How the value is written out. A double is written as its bit
    /// pattern and a reference to a cell as its handle; what they stand
    /// for is for the host to write.
    pub open spec fn text(self) -> Seq<char> {
        match self {
            ValueView::Nil => "None"@,
            ValueView::Bool(b) => if b {
                "true"@
            } else {
                "false"@
            },
            ValueView::Float(bits) => "Float("@ + crate::text::hex_text(bits as nat) + ")"@,
            ValueView::Int(i) => crate::text::decimal_text(i),
            ValueView::Str(s) => s,
            ValueView::Closure(_) => "Closure"@,
            ValueView::Function(_) => "Function"@,
            ValueView::HeapedData(h) => "HeapedData("@ + crate::text::hex_text(h as nat) + ")"@,
            ValueView::Native(x) => "Native("@ + x + ")"@,
        }
    }
}

impl Value {
    /// Writes the value out.
    pub fn to_text(&self) -> (s: String)
        ensures
            s@ == self@.text(),
    {
        let mut s = String::new();
        let ghost empty = s@;
        match self {
            Value::Nil => {
                crate::text::push_text(&mut s, "None");
            },
            Value::Bool(b) => {
                if *b {
                    crate::text::push_text(&mut s, "true");
                } else {
                    crate::text::push_text(&mut s, "false");
                }
            },
            Value::Float(bits) => {
                crate::text::push_text(&mut s, "Float(");
                crate::text::push_hex(&mut s, *bits);
                crate::text::push_text(&mut s, ")");
            },
            Value::Int(i) => {
                crate::text::push_decimal(&mut s, *i);
            },
            Value::Str(x) => {
                crate::text::push_text(&mut s, x.as_str());
            },
            Value::Closure(_) => {
                crate::text::push_text(&mut s, "Closure");
            },
            Value::Function(_) => {
                crate::text::push_text(&mut s, "Function");
            },
            Value::HeapedData(h) => {
                crate::text::push_text(&mut s, "HeapedData(");
                crate::text::push_hex(&mut s, *h as u64);
                crate::text::push_text(&mut s, ")");
            },
            Value::Native(x) => {
                crate::text::push_text(&mut s, "Native(");
                crate::text::push_text(&mut s, x.as_str());
                crate::text::push_text(&mut s, ")");
            },
        }
        assert(s@ =~= self@.text());
        s
    }
}

} // verus!
