//! The stack machine. It executes one instruction at a time on a state of
//! call frames, an operand stack, global variables and a heap of shared
//! cells. What it cannot do itself, calling a host function and computing
//! with doubles, it asks of its host: it stops with a request, and goes on
//! when the host hands it the answer.

use crate::common::{ChunkView, Op};
use crate::globals::Globals;
use crate::native::FFI;
use crate::value::{values_view, Closure, ClosureView, Value, ValueView};
use vstd::prelude::*;

verus! {

/// Why a run failed.
#[derive(Clone, Copy, Debug, PartialEq, Eq, Structural)]
pub enum RuntimeError {
    /// An operand of the wrong kind for arithmetic or negation.
    TypeError,
    /// A call of a value that is neither a closure nor a host function.
    NotCallable,
    /// A call with another number of arguments than the closure takes.
    ArityMismatch,
    /// A read of a global variable that nothing has defined.
    UnboundGlobal,
    /// More nested calls than the machine allows.
    StackOverflow,
    /// An integer divided by the integer zero.
    DivisionByZero,
    /// An integer result outside the machine's integers.
    Overflow,
    /// Code that no compiler run produces: an unknown opcode, a missing
    /// operand, an index outside its table, a pop from an empty frame, a
    /// jump out of the chunk.
    Malformed,
    /// An answer of the host that does not fit the request.
    BadAnswer,
}

/// How a run ended.
#[derive(Clone, Copy, Debug, PartialEq, Eq, Structural)]
pub enum VMResult {
    Success,
    Error,
}

/// What a call of `step` or `run` left the machine in.
#[derive(Clone, Copy, Debug, PartialEq, Eq, Structural)]
pub enum Signal {
    /// There is more to execute.
    Paused,
    /// The machine waits for the answer to its request.
    Waiting,
    /// The run is over.
    Done(VMResult),
}

/// What the machine asks of its host.
#[derive(Debug)]
pub enum Request {
    /// Call the host function `name` on `arg`; any value answers.
    Native { name: String, arg: Value },
    /// Compute `op` on the numbers `x` and `y`, integers promoted to
    /// doubles. For `Negate`, `y` is `Nil`. A `Float` answers, or for
    /// `IsEqual` a `Bool`.
    Float { op: Op, x: Value, y: Value },
}

/// The mathematical model of a [`Request`].
pub enum RequestView {
    Native { name: Seq<char>, arg: ValueView },
    Float { op: Op, x: ValueView, y: ValueView },
}

impl View for Request {
    type V = RequestView;

    open spec fn view(&self) -> RequestView {
        match self {
            Request::Native { name, arg } => RequestView::Native { name: name@, arg: arg@ },
            Request::Float { op, x, y } => RequestView::Float { op: *op, x: x@, y: y@ },
        }
    }
}

impl RequestView {
    /// Whether `answer` is of the kind that the request asks for.
    pub open spec fn accepts(self, answer: ValueView) -> bool {
        match self {
            RequestView::Native { .. } => true,
            RequestView::Float { op, .. } => if op == Op::IsEqual {
                answer is Bool
            } else {
                answer is Float
            },
        }
    }
}

/// The state of a run.
#[derive(Debug)]
pub enum Status {
    Running,
    Waiting(Request),
    /// The outermost frame has returned this value.
    Finished(Value),
    Failed(RuntimeError),
}

/// The mathematical model of a [`Status`].
pub enum StatusView {
    Running,
    Waiting(RequestView),
    Finished(ValueView),
    Failed(RuntimeError),
}

impl View for Status {
    type V = StatusView;

    open spec fn view(&self) -> StatusView {
        match self {
            Status::Running => StatusView::Running,
            Status::Waiting(r) => StatusView::Waiting(r@),
            Status::Finished(v) => StatusView::Finished(v@),
            Status::Failed(e) => StatusView::Failed(*e),
        }
    }
}

impl StatusView {
    /// What `step` and `run` return for this state.
    pub open spec fn signal(self) -> Signal {
        match self {
            StatusView::Running => Signal::Paused,
            StatusView::Waiting(_) => Signal::Waiting,
            StatusView::Finished(_) => Signal::Done(VMResult::Success),
            StatusView::Failed(_) => Signal::Done(VMResult::Error),
        }
    }
}

/// An activation record: the instruction pointer, the closure that runs,
/// and the index of the operand stack at which the frame's slot 0 lies.
#[derive(Debug)]
pub struct CallFrame {
    ip: usize,
    closure: Closure,
    stack_start: usize,
}

/// The mathematical model of a [`CallFrame`].
pub struct FrameView {
    pub ip: nat,
    pub closure: ClosureView,
    pub stack_start: nat,
}

impl View for CallFrame {
    type V = FrameView;

    closed spec fn view(&self) -> FrameView {
        FrameView { ip: self.ip as nat, closure: self.closure@, stack_start: self.stack_start as nat }
    }
}

impl CallFrame {
    /// A frame at the first instruction of `closure`, with its slots from
    /// `stack_start` on.
    pub fn new(closure: Closure, stack_start: usize) -> (f: CallFrame)
        ensures
            f@ == (FrameView { ip: 0, closure: closure@, stack_start: stack_start as nat }),
    {
        CallFrame { ip: 0, closure, stack_start }
    }
}

/// The models of a sequence of frames, element by element.
pub open spec fn frames_view(s: Seq<CallFrame>) -> Seq<FrameView> {
    Seq::new(s.len(), |i: int| s[i]@)
}

/// Whether `i` is one of the machine's integers.
pub open spec fn fits(i: int) -> bool {
    isize::MIN <= i <= isize::MAX
}

/// The integer that `op` gives on two integers. Division is not among
/// them: it always gives a double.
pub open spec fn int_arith(op: Op, a: int, b: int) -> int {
    match op {
        Op::Add => a + b,
        Op::Subtract => a - b,
        _ => a * b,
    }
}

/// What an instruction makes of its operands: a value to push, a request
/// to the host, or a failure.
#[derive(Debug)]
pub enum Outcome {
    Push(Value),
    Ask(Request),
    Fail(RuntimeError),
}

/// The mathematical model of an [`Outcome`].
pub enum OutcomeView {
    Push(ValueView),
    Ask(RequestView),
    Fail(RuntimeError),
}

impl View for Outcome {
    type V = OutcomeView;

    open spec fn view(&self) -> OutcomeView {
        match self {
            Outcome::Push(v) => OutcomeView::Push(v@),
            Outcome::Ask(r) => OutcomeView::Ask(r@),
            Outcome::Fail(e) => OutcomeView::Fail(*e),
        }
    }
}

/// Negation: of a boolean its opposite, of an integer its negative, of a
/// double what the host computes.
pub open spec fn negate_spec(x: ValueView) -> OutcomeView {
    match x {
        ValueView::Bool(b) => OutcomeView::Push(ValueView::Bool(!b)),
        ValueView::Int(i) => if fits(-i) {
            OutcomeView::Push(ValueView::Int(-i))
        } else {
            OutcomeView::Fail(RuntimeError::Overflow)
        },
        ValueView::Float(_) => OutcomeView::Ask(
            RequestView::Float { op: Op::Negate, x, y: ValueView::Nil },
        ),
        _ => OutcomeView::Fail(RuntimeError::TypeError),
    }
}

/// `Add`, `Subtract`, `Multiply` and `Divide` on `x` and `y`. Two integers
/// give an integer, but for `Divide`; a double among the two numbers, or
/// `Divide`, gives a double, which the host is asked for. An integer is
/// not divided by the integer zero.
pub open spec fn arith_spec(op: Op, x: ValueView, y: ValueView) -> OutcomeView {
    match (x, y) {
        (ValueView::Int(a), ValueView::Int(b)) => if op == Op::Divide {
            if b == 0 {
                OutcomeView::Fail(RuntimeError::DivisionByZero)
            } else {
                OutcomeView::Ask(RequestView::Float { op, x, y })
            }
        } else if fits(int_arith(op, a, b)) {
            OutcomeView::Push(ValueView::Int(int_arith(op, a, b)))
        } else {
            OutcomeView::Fail(RuntimeError::Overflow)
        },
        (ValueView::Int(_), ValueView::Float(_))
        | (ValueView::Float(_), ValueView::Int(_))
        | (ValueView::Float(_), ValueView::Float(_)) => OutcomeView::Ask(
            RequestView::Float { op, x, y },
        ),
        _ => OutcomeView::Fail(RuntimeError::TypeError),
    }
}

/// Equality is total: two integers or two booleans compare by value, two
/// doubles as the host says, and anything else is unequal.
pub open spec fn equal_spec(x: ValueView, y: ValueView) -> OutcomeView {
    match (x, y) {
        (ValueView::Int(a), ValueView::Int(b)) => OutcomeView::Push(ValueView::Bool(a == b)),
        (ValueView::Bool(a), ValueView::Bool(b)) => OutcomeView::Push(ValueView::Bool(a == b)),
        (ValueView::Float(_), ValueView::Float(_)) => OutcomeView::Ask(
            RequestView::Float { op: Op::IsEqual, x, y },
        ),
        _ => OutcomeView::Push(ValueView::Bool(false)),
    }
}

/// What a call makes of the callee `f` that is no closure, with `arg` on
/// top of the arguments: a host function is called on that one argument.
pub open spec fn native_call_spec(f: ValueView, arg: ValueView) -> OutcomeView {
    match f {
        ValueView::Native(name) => OutcomeView::Ask(RequestView::Native { name, arg }),
        _ => OutcomeView::Fail(RuntimeError::NotCallable),
    }
}

/// Whether the frames are nested in a stack of height `top`: the first
/// starts at the bottom, each later one starts no lower than the one before
/// it, and the last one starts no higher than `top`.
#[verifier::opaque]
pub open spec fn nested(frames: Seq<FrameView>, top: int) -> bool {
    &&& frames.len() > 0 ==> frames[0].stack_start == 0
    &&& forall|i: int|
        0 <= i < frames.len() - 1 ==> (#[trigger] frames[i]).stack_start <= frames[i
            + 1].stack_start
    &&& frames.len() > 0 ==> frames.last().stack_start <= top
}

/// Whether no cell of the heap holds a reference to a cell.
#[verifier::opaque]
pub open spec fn flat(heap: Seq<ValueView>) -> bool {
    forall|h: int| 0 <= h < heap.len() ==> !(#[trigger] heap[h] is HeapedData)
}

/// The mathematical model of a machine.
pub struct VMView {
    pub frames: Seq<FrameView>,
    pub stack: Seq<ValueView>,
    pub globals: Map<Seq<char>, ValueView>,
    pub heap: Seq<ValueView>,
    pub natives: Set<Seq<char>>,
    pub status: StatusView,
    pub frame_cap: nat,
}

/// What `MakeClosure` has gathered after some of its captures: the state
/// so far, the cells captured, the cell that stands for the new closure's
/// own slot if it was captured, and whether every capture was in order.
pub struct Capture {
    pub vm: VMView,
    pub cells: Seq<usize>,
    pub own: Option<usize>,
    pub ok: bool,
}

impl VMView {
    /// The frames are nested: the first starts at the bottom of the stack,
    /// each later one starts no lower than the one before it, and the last
    /// one starts within the stack. No cell of the heap holds a reference
    /// to a cell.
    pub open spec fn wf(self) -> bool {
        &&& (self.status is Running || self.status is Waiting) ==> self.frames.len() > 0
        &&& nested(self.frames, self.stack.len() as int)
        &&& flat(self.heap)
    }

    /// The frame that runs.
    pub open spec fn frame(self) -> FrameView {
        self.frames.last()
    }

    /// The chunk that runs.
    pub open spec fn chunk(self) -> ChunkView {
        self.frame().closure.function.chunk
    }

    /// The address of the instruction at hand.
    pub open spec fn ip(self) -> int {
        self.frame().ip as int
    }

    /// The stack index of slot 0 of the frame that runs.
    pub open spec fn base(self) -> int {
        self.frame().stack_start as int
    }

    /// How many values the frame that runs has on the stack.
    pub open spec fn depth(self) -> int {
        self.stack.len() - self.base()
    }

    /// The one-byte operand of the instruction at hand.
    pub open spec fn operand(self) -> int {
        self.chunk().code[self.ip() + 1] as int
    }

    /// The two-byte operand of the instruction at hand.
    pub open spec fn wide_operand(self) -> int {
        self.chunk().double_at(self.ip() + 1) as int
    }

    /// The value at `n` below the top of the stack; the top is at 0.
    pub open spec fn peek(self, n: int) -> ValueView {
        self.stack[self.stack.len() - 1 - n]
    }

    /// What `v` stands for: the content of the cell if it is a reference
    /// to a cell of the heap, `v` itself if it is no reference, and
    /// nothing if the cell does not exist.
    pub open spec fn resolve(self, v: ValueView) -> Option<ValueView> {
        match v {
            ValueView::HeapedData(h) => if h < self.heap.len() {
                Some(self.heap[h as int])
            } else {
                None
            },
            _ => Some(v),
        }
    }

    /// The state in which the run has failed with `e`.
    pub open spec fn fail(self, e: RuntimeError) -> VMView {
        VMView { status: StatusView::Failed(e), ..self }
    }

    /// The state in which the machine waits for the answer to `r`.
    pub open spec fn request(self, r: RequestView) -> VMView {
        VMView { status: StatusView::Waiting(r), ..self }
    }

    /// The state with the instruction pointer of the running frame at `ip`.
    pub open spec fn jump_to(self, ip: int) -> VMView {
        VMView {
            frames: self.frames.update(
                self.frames.len() - 1,
                FrameView { ip: ip as nat, ..self.frame() },
            ),
            ..self
        }
    }

    /// The state with the instruction pointer `n` bytes on.
    pub open spec fn advance(self, n: int) -> VMView {
        self.jump_to(self.ip() + n)
    }

    /// The state with `v` on top of the stack.
    pub open spec fn push(self, v: ValueView) -> VMView {
        VMView { stack: self.stack.push(v), ..self }
    }

    /// The state without the top `n` values of the stack.
    pub open spec fn drop(self, n: int) -> VMView {
        VMView { stack: self.stack.subrange(0, self.stack.len() - n), ..self }
    }

    /// The state with `v` in the cell `h`.
    pub open spec fn store(self, h: usize, v: ValueView) -> VMView {
        VMView { heap: self.heap.update(h as int, v), ..self }
    }

    /// `Return`: the result leaves the stack, the frame goes, the stack is
    /// cut down to where the frame started, and the result lies there for
    /// the caller. When the last frame goes the run is over, with what the
    /// result stands for.
    pub open spec fn op_return(self) -> VMView {
        if self.depth() < 1 {
            self.fail(RuntimeError::Malformed)
        } else {
            let v = self.peek(0);
            let below = self.stack.subrange(0, self.base());
            if self.frames.len() == 1 {
                match self.resolve(v) {
                    None => self.fail(RuntimeError::Malformed),
                    Some(r) => VMView {
                        frames: self.frames.drop_last(),
                        stack: below,
                        status: StatusView::Finished(r),
                        ..self
                    },
                }
            } else {
                VMView { frames: self.frames.drop_last(), stack: below.push(v), ..self }
            }
        }
    }

    /// `Pop`: the top of the stack goes.
    pub open spec fn op_pop(self) -> VMView {
        if self.depth() < 1 {
            self.fail(RuntimeError::Malformed)
        } else {
            self.drop(1).advance(1)
        }
    }

    /// The state after an instruction that takes `n` operands from the
    /// stack, makes `o` of them and is `by` bytes wide.
    pub open spec fn finish(self, n: int, o: OutcomeView, by: int) -> VMView {
        match o {
            OutcomeView::Push(v) => self.drop(n).push(v).advance(by),
            OutcomeView::Ask(r) => self.drop(n).request(r).advance(by),
            OutcomeView::Fail(e) => self.fail(e),
        }
    }

    /// `Negate`: what the top of the stack stands for is negated.
    pub open spec fn op_negate(self) -> VMView {
        if self.depth() < 1 {
            self.fail(RuntimeError::Malformed)
        } else {
            match self.resolve(self.peek(0)) {
                None => self.fail(RuntimeError::Malformed),
                Some(x) => self.finish(1, negate_spec(x), 1),
            }
        }
    }

    /// `Add`, `Subtract`, `Multiply` and `Divide`: `y` is on top of the
    /// stack and `x` below it.
    pub open spec fn op_arith(self, op: Op) -> VMView {
        if self.depth() < 2 {
            self.fail(RuntimeError::Malformed)
        } else {
            match (self.resolve(self.peek(1)), self.resolve(self.peek(0))) {
                (Some(x), Some(y)) => self.finish(2, arith_spec(op, x, y), 1),
                _ => self.fail(RuntimeError::Malformed),
            }
        }
    }

    /// `IsEqual`: the two values on top of the stack are compared.
    pub open spec fn op_is_equal(self) -> VMView {
        if self.depth() < 2 {
            self.fail(RuntimeError::Malformed)
        } else {
            match (self.resolve(self.peek(1)), self.resolve(self.peek(0))) {
                (Some(x), Some(y)) => self.finish(2, equal_spec(x, y), 1),
                _ => self.fail(RuntimeError::Malformed),
            }
        }
    }

    /// `LoadConstant`: the constant that the operand names is pushed.
    pub open spec fn op_load_constant(self) -> VMView {
        if self.operand() >= self.chunk().constants.len() {
            self.fail(RuntimeError::Malformed)
        } else {
            self.push(self.chunk().constants[self.operand()]).advance(2)
        }
    }

    /// The name that the operand of a global access refers to.
    pub open spec fn global_name(self) -> Option<Seq<char>> {
        if self.operand() >= self.chunk().constants.len() {
            None
        } else {
            match self.chunk().constants[self.operand()] {
                ValueView::Str(name) => Some(name),
                _ => None,
            }
        }
    }

    /// `SetGlobal`: what the top of the stack stands for becomes the value
    /// of the global variable, and leaves the stack.
    pub open spec fn op_set_global(self) -> VMView {
        match self.global_name() {
            None => self.fail(RuntimeError::Malformed),
            Some(name) => if self.depth() < 1 {
                self.fail(RuntimeError::Malformed)
            } else {
                match self.resolve(self.peek(0)) {
                    None => self.fail(RuntimeError::Malformed),
                    Some(r) => VMView { globals: self.globals.insert(name, r), ..self }.drop(
                        1,
                    ).advance(2),
                }
            },
        }
    }

    /// A host function of the name goes before a global variable of it.
    pub open spec fn op_get_global(self) -> VMView {
        match self.global_name() {
            None => self.fail(RuntimeError::Malformed),
            Some(name) => if self.natives.contains(name) {
                self.push(ValueView::Native(name)).advance(2)
            } else if self.globals.dom().contains(name) {
                self.push(self.globals[name]).advance(2)
            } else {
                self.fail(RuntimeError::UnboundGlobal)
            },
        }
    }

    /// A slot that was captured holds a reference to its cell, and the
    /// assignment goes to the cell.
    pub open spec fn op_set_local(self) -> VMView {
        let slot = self.base() + self.operand();
        if self.depth() < 1 || slot >= self.stack.len() - 1 {
            self.fail(RuntimeError::Malformed)
        } else {
            match self.resolve(self.peek(0)) {
                None => self.fail(RuntimeError::Malformed),
                Some(r) => match self.stack[slot] {
                    ValueView::HeapedData(h) => if h < self.heap.len() {
                        self.store(h, r).drop(1).advance(2)
                    } else {
                        self.fail(RuntimeError::Malformed)
                    },
                    _ => VMView { stack: self.stack.update(slot, r), ..self }.drop(1).advance(2),
                },
            }
        }
    }

    /// `GetLocal`: what the slot holds is pushed.
    pub open spec fn op_get_local(self) -> VMView {
        let slot = self.base() + self.operand();
        if slot >= self.stack.len() {
            self.fail(RuntimeError::Malformed)
        } else {
            self.push(self.stack[slot]).advance(2)
        }
    }

    /// Pushes a reference to the cell, not its content.
    pub open spec fn op_get_upvalue(self) -> VMView {
        let cells = self.frame().closure.upvalues;
        if self.operand() >= cells.len() {
            self.fail(RuntimeError::Malformed)
        } else {
            self.push(ValueView::HeapedData(cells[self.operand()])).advance(2)
        }
    }

    /// Writes the top of the stack into the cell and leaves it on the
    /// stack.
    pub open spec fn op_set_upvalue(self) -> VMView {
        let cells = self.frame().closure.upvalues;
        if self.operand() >= cells.len() || self.depth() < 1 {
            self.fail(RuntimeError::Malformed)
        } else {
            let h = cells[self.operand()];
            match self.resolve(self.peek(0)) {
                None => self.fail(RuntimeError::Malformed),
                Some(r) => if h < self.heap.len() {
                    self.store(h, r).advance(2)
                } else {
                    self.fail(RuntimeError::Malformed)
                },
            }
        }
    }

    /// `Call`: the callee is on top of the stack, its arguments below it.
    /// A closure gets a frame that starts at the first argument; the
    /// caller goes on behind the call when it returns. A host function is
    /// called by the host on the one argument on top.
    pub open spec fn op_call(self) -> VMView {
        let n = self.operand();
        if self.depth() < 1 {
            self.fail(RuntimeError::Malformed)
        } else {
            match self.resolve(self.peek(0)) {
                None => self.fail(RuntimeError::Malformed),
                Some(ValueView::Closure(c)) => if c.function.arity != n {
                    self.fail(RuntimeError::ArityMismatch)
                } else if self.depth() - 1 < n {
                    self.fail(RuntimeError::Malformed)
                } else if self.frames.len() >= self.frame_cap {
                    self.fail(RuntimeError::StackOverflow)
                } else {
                    let s = self.drop(1).advance(2);
                    VMView {
                        frames: s.frames.push(
                            FrameView {
                                ip: 0,
                                closure: c,
                                stack_start: (s.stack.len() - n) as nat,
                            },
                        ),
                        ..s
                    }
                },
                Some(ValueView::Native(name)) => if self.depth() < 2 {
                    self.fail(RuntimeError::Malformed)
                } else {
                    match self.resolve(self.peek(1)) {
                        None => self.fail(RuntimeError::Malformed),
                        Some(arg) => self.finish(
                            2,
                            native_call_spec(ValueView::Native(name), arg),
                            2,
                        ),
                    }
                },
                Some(_) => self.fail(RuntimeError::NotCallable),
            }
        }
    }

    /// The state at `target`, if that lies in the chunk or at its end.
    pub open spec fn land(self, target: int) -> VMView {
        if target > self.chunk().code.len() {
            self.fail(RuntimeError::Malformed)
        } else {
            self.jump_to(target)
        }
    }

    /// `JumpIfFalse`: the condition leaves the stack; if it is false the
    /// machine goes on at the operand from here, else behind the
    /// instruction.
    pub open spec fn op_jump_if_false(self) -> VMView {
        if self.depth() < 1 {
            self.fail(RuntimeError::Malformed)
        } else {
            match self.resolve(self.peek(0)) {
                None => self.fail(RuntimeError::Malformed),
                Some(c) => if c.is_falsey() {
                    if self.ip() + self.wide_operand() > self.chunk().code.len() {
                        self.fail(RuntimeError::Malformed)
                    } else {
                        self.drop(1).jump_to(self.ip() + self.wide_operand())
                    }
                } else {
                    self.drop(1).advance(3)
                },
            }
        }
    }

    /// One capture of `MakeClosure`. A local slot that holds a reference
    /// is shared; another local slot has its value moved to a new cell and
    /// holds a reference to it from now on; the slot `home`, where the new
    /// closure will lie, gets a cell that the closure is put in at the
    /// end. A capture that is not local shares a cell of the running
    /// closure.
    pub open spec fn capture(
        self,
        is_local: u8,
        index: u8,
        cells: Seq<usize>,
        own: Option<usize>,
    ) -> Capture {
        let home = self.stack.len();
        let fresh = self.heap.len() as usize;
        if is_local != 0 {
            let slot = self.base() + index;
            if slot < home {
                match self.stack[slot] {
                    ValueView::HeapedData(h) => Capture {
                        vm: self,
                        cells: cells.push(h),
                        own,
                        ok: true,
                    },
                    v => Capture {
                        vm: VMView {
                            stack: self.stack.update(slot, ValueView::HeapedData(fresh)),
                            heap: self.heap.push(v),
                            ..self
                        },
                        cells: cells.push(fresh),
                        own,
                        ok: true,
                    },
                }
            } else if slot == home {
                match own {
                    Some(h) => Capture { vm: self, cells: cells.push(h), own, ok: true },
                    None => Capture {
                        vm: VMView { heap: self.heap.push(ValueView::Nil), ..self },
                        cells: cells.push(fresh),
                        own: Some(fresh),
                        ok: true,
                    },
                }
            } else {
                Capture { vm: self, cells, own, ok: false }
            }
        } else {
            let shared = self.frame().closure.upvalues;
            if index < shared.len() {
                Capture { vm: self, cells: cells.push(shared[index as int]), own, ok: true }
            } else {
                Capture { vm: self, cells, own, ok: false }
            }
        }
    }

    /// The captures `j .. n` of the `MakeClosure` at hand, in order, up to
    /// the first that is not in order.
    pub open spec fn capture_from(self, j: nat, n: nat, cells: Seq<usize>, own: Option<usize>) -> Capture
        decreases n - j,
    {
        if j >= n {
            Capture { vm: self, cells, own, ok: true }
        } else {
            let code = self.chunk().code;
            let c = self.capture(code[self.ip() + 2 + 2 * j], code[self.ip() + 3 + 2 * j], cells, own);
            if c.ok {
                c.vm.capture_from(j + 1, n, c.cells, c.own)
            } else {
                c
            }
        }
    }

    /// `MakeClosure`: a closure of the function that the operand names,
    /// with the cells that the bytes behind the operand ask for, is pushed.
    /// If it captures its own slot, the slot holds a reference to a cell
    /// with the closure in it.
    pub open spec fn op_make_closure(self) -> VMView {
        if self.operand() >= self.chunk().constants.len() {
            self.fail(RuntimeError::Malformed)
        } else {
            match self.chunk().constants[self.operand()] {
                ValueView::Function(f) => if self.ip() + 2 + 2 * f.upvalue_count
                    > self.chunk().code.len() {
                    self.fail(RuntimeError::Malformed)
                } else {
                    let c = self.capture_from(0, f.upvalue_count, Seq::empty(), None);
                    let closure = ValueView::Closure(
                        ClosureView { function: f, upvalues: c.cells },
                    );
                    if !c.ok {
                        c.vm.fail(RuntimeError::Malformed)
                    } else {
                        match c.own {
                            Some(h) => c.vm.store(h, closure).push(ValueView::HeapedData(h)).advance(
                                2 + 2 * (f.upvalue_count as int),
                            ),
                            None => c.vm.push(closure).advance(2 + 2 * (f.upvalue_count as int)),
                        }
                    }
                },
                _ => self.fail(RuntimeError::Malformed),
            }
        }
    }

    /// The effect of the instruction `op` at the instruction pointer.
    pub open spec fn execute(self, op: Op) -> VMView {
        match op {
            Op::Return => self.op_return(),
            Op::Pop => self.op_pop(),
            Op::LoadTrue => self.push(ValueView::Bool(true)).advance(1),
            Op::Negate => self.op_negate(),
            Op::Add | Op::Subtract | Op::Multiply | Op::Divide => self.op_arith(op),
            Op::IsEqual => self.op_is_equal(),
            Op::LoadConstant => self.op_load_constant(),
            Op::SetGlobal => self.op_set_global(),
            Op::GetGlobal => self.op_get_global(),
            Op::SetLocal => self.op_set_local(),
            Op::GetLocal => self.op_get_local(),
            Op::GetUpvalue => self.op_get_upvalue(),
            Op::SetUpvalue => self.op_set_upvalue(),
            Op::Call => self.op_call(),
            Op::MakeClosure => self.op_make_closure(),
            Op::JumpIfFalse => self.op_jump_if_false(),
            Op::Jump => self.land(self.ip() + self.wide_operand()),
            Op::AbsJump => self.land(self.wide_operand()),
        }
    }

    /// The opcode at the instruction pointer, if there is one with all of
    /// its operands.
    pub open spec fn fetch(self) -> Option<Op> {
        let code = self.chunk().code;
        if self.ip() >= code.len() {
            None
        } else {
            match Op::decode(code[self.ip()]) {
                None => None,
                Some(op) => if self.ip() + op.spec_width() > code.len() {
                    None
                } else {
                    Some(op)
                },
            }
        }
    }

    /// One step of the machine. A machine that is not running stays as it
    /// is. One whose instruction pointer has reached the end of its chunk
    /// finishes without a value.
    pub open spec fn step(self) -> VMView {
        if !(self.status is Running) || self.frames.len() == 0 {
            self
        } else if self.ip() >= self.chunk().code.len() {
            VMView { status: StatusView::Finished(ValueView::Nil), ..self }
        } else {
            match self.fetch() {
                None => self.fail(RuntimeError::Malformed),
                Some(op) => self.execute(op),
            }
        }
    }

    /// At most `budget` steps, up to the first after which the machine
    /// does not run any more.
    pub open spec fn run(self, budget: nat) -> VMView
        decreases budget,
    {
        if budget == 0 || !(self.status is Running) {
            self
        } else {
            self.step().run((budget - 1) as nat)
        }
    }

    /// The state after the host has answered the request at hand: the
    /// answer lies on the stack and the machine runs again, or it has
    /// failed because the answer does not fit the request.
    pub open spec fn resume(self, answer: ValueView) -> VMView {
        match self.status {
            StatusView::Waiting(r) => if r.accepts(answer) {
                VMView { status: StatusView::Running, ..self }.push(answer)
            } else {
                self.fail(RuntimeError::BadAnswer)
            },
            _ => self,
        }
    }
}

} // verus!

verus! {

impl VMView {
    /// Whether the machine has an instruction to execute.
    pub open spec fn active(self) -> bool {
        self.status is Running && self.frames.len() > 0
    }

    proof fn lemma_resolved(self, v: ValueView)
        requires
            flat(self.heap),
        ensures
            self.resolve(v) matches Some(r) ==> !(r is HeapedData),
    {
        reveal(flat);
    }

    proof fn lemma_flat_update(heap: Seq<ValueView>, h: int, v: ValueView)
        requires
            flat(heap),
            0 <= h < heap.len(),
            !(v is HeapedData),
        ensures
            flat(heap.update(h, v)),
    {
        reveal(flat);
    }

    proof fn lemma_flat_push(heap: Seq<ValueView>, v: ValueView)
        requires
            flat(heap),
            !(v is HeapedData),
        ensures
            flat(heap.push(v)),
    {
        reveal(flat);
    }

    proof fn lemma_nested_top(frames: Seq<FrameView>, top: int, other: int)
        requires
            nested(frames, top),
            frames.len() > 0 ==> frames.last().stack_start <= other,
        ensures
            nested(frames, other),
    {
        reveal(nested);
    }

    proof fn lemma_nested_higher(frames: Seq<FrameView>, top: int, other: int)
        requires
            nested(frames, top),
            top <= other,
        ensures
            nested(frames, other),
    {
        reveal(nested);
    }

    proof fn lemma_nested_ip(frames: Seq<FrameView>, top: int, ip: nat)
        requires
            nested(frames, top),
            frames.len() > 0,
        ensures
            nested(frames.update(frames.len() - 1, FrameView { ip, ..frames.last() }), top),
    {
        reveal(nested);
    }

    proof fn lemma_nested_push(frames: Seq<FrameView>, top: int, f: FrameView)
        requires
            nested(frames, top),
            frames.len() > 0,
            frames.last().stack_start <= f.stack_start <= top,
        ensures
            nested(frames.push(f), top),
    {
        reveal(nested);
        let t = frames.push(f);
        assert forall|i: int| 0 <= i < t.len() - 1 implies (#[trigger] t[i]).stack_start <= t[i
            + 1].stack_start by {
            if i < frames.len() - 1 {
                assert(frames[i].stack_start <= frames[i + 1].stack_start);
            }
        }
    }

    proof fn lemma_nested_pop(frames: Seq<FrameView>, top: int)
        requires
            nested(frames, top),
            frames.len() > 0,
        ensures
            nested(frames.drop_last(), frames.last().stack_start as int),
            frames.len() == 1 ==> frames.last().stack_start == 0,
    {
        reveal(nested);
        let t = frames.drop_last();
        if t.len() > 0 {
            assert(frames[t.len() - 1].stack_start <= frames[t.len() - 1 + 1].stack_start);
        }
        assert forall|i: int| 0 <= i < t.len() - 1 implies (#[trigger] t[i]).stack_start <= t[i
            + 1].stack_start by {
            assert(frames[i].stack_start <= frames[i + 1].stack_start);
        }
    }

    proof fn lemma_base(self)
        requires
            self.wf(),
            self.frames.len() > 0,
        ensures
            0 <= self.base() <= self.stack.len(),
    {
        reveal(nested);
    }

    proof fn lemma_jump_to(self, ip: int)
        requires
            self.wf(),
            self.frames.len() > 0,
        ensures
            self.jump_to(ip).wf(),
    {
        Self::lemma_nested_ip(self.frames, self.stack.len() as int, ip as nat);
    }

    /// Another stack of a height that the running frame starts within
    /// keeps the machine well formed.
    proof fn lemma_stack(self, stack: Seq<ValueView>)
        requires
            self.wf(),
            self.frames.len() > 0,
            self.base() <= stack.len(),
        ensures
            (VMView { stack, ..self }).wf(),
    {
        Self::lemma_nested_top(self.frames, self.stack.len() as int, stack.len() as int);
    }

    proof fn lemma_op_return(self)
        requires
            self.wf(),
            self.active(),
        ensures
            self.op_return().wf(),
    {
        self.lemma_base();
        Self::lemma_nested_pop(self.frames, self.stack.len() as int);
        if self.depth() >= 1 {
            let below = self.stack.subrange(0, self.base());
            let v = self.peek(0);
            Self::lemma_nested_higher(self.frames.drop_last(), self.base(), below.len() as int);
            Self::lemma_nested_higher(
                self.frames.drop_last(),
                self.base(),
                below.push(v).len() as int,
            );
        }
    }

    proof fn lemma_op_pop(self)
        requires
            self.wf(),
            self.active(),
        ensures
            self.op_pop().wf(),
            self.push(ValueView::Bool(true)).advance(1).wf(),
    {
        self.lemma_base();
        self.lemma_stack(self.stack.push(ValueView::Bool(true)));
        self.push(ValueView::Bool(true)).lemma_jump_to(self.ip() + 1);
        if self.depth() >= 1 {
            self.lemma_stack(self.drop(1).stack);
            self.drop(1).lemma_jump_to(self.ip() + 1);
        }
    }

    /// The state with `v` in place of the top `n` values is well formed.
    proof fn lemma_replace(self, n: int, v: ValueView, by: int)
        requires
            self.wf(),
            self.active(),
            0 <= n <= self.depth(),
        ensures
            self.drop(n).push(v).advance(by).wf(),
            self.drop(n).advance(by).wf(),
            self.drop(n).wf(),
    {
        self.lemma_base();
        self.lemma_stack(self.drop(n).stack);
        self.lemma_stack(self.drop(n).push(v).stack);
        self.drop(n).lemma_jump_to(self.ip() + by);
        self.drop(n).push(v).lemma_jump_to(self.ip() + by);
    }

    proof fn lemma_finish(self, n: int, o: OutcomeView, by: int)
        requires
            self.wf(),
            self.active(),
            0 <= n <= self.depth(),
        ensures
            self.finish(n, o, by).wf(),
    {
        match o {
            OutcomeView::Push(v) => {
                self.lemma_replace(n, v, by);
            },
            OutcomeView::Ask(r) => {
                self.lemma_base();
                self.lemma_stack(self.drop(n).stack);
                self.drop(n).request(r).lemma_jump_to(self.ip() + by);
            },
            OutcomeView::Fail(e) => {},
        }
    }

    proof fn lemma_op_operate(self, op: Op)
        requires
            self.wf(),
            self.active(),
        ensures
            self.op_negate().wf(),
            self.op_arith(op).wf(),
            self.op_is_equal().wf(),
    {
        if self.depth() >= 1 {
            match self.resolve(self.peek(0)) {
                Some(x) => {
                    self.lemma_finish(1, negate_spec(x), 1);
                },
                _ => {},
            }
        }
        if self.depth() >= 2 {
            match (self.resolve(self.peek(1)), self.resolve(self.peek(0))) {
                (Some(x), Some(y)) => {
                    self.lemma_finish(2, arith_spec(op, x, y), 1);
                    self.lemma_finish(2, equal_spec(x, y), 1);
                },
                _ => {},
            }
        }
    }

    proof fn lemma_op_load(self)
        requires
            self.wf(),
            self.active(),
        ensures
            self.op_load_constant().wf(),
            self.op_get_local().wf(),
            self.op_get_upvalue().wf(),
            self.op_get_global().wf(),
    {
        self.lemma_base();
        assert forall|v: ValueView| (#[trigger] self.push(v)).advance(2).wf() by {
            self.lemma_replace(0, v, 2);
            assert(self.drop(0).stack =~= self.stack);
        }
    }

    proof fn lemma_op_set_global(self)
        requires
            self.wf(),
            self.active(),
        ensures
            self.op_set_global().wf(),
    {
        match self.global_name() {
            None => {},
            Some(name) => {
                if self.depth() >= 1 {
                    match self.resolve(self.peek(0)) {
                        None => {},
                        Some(r) => {
                            let t = VMView { globals: self.globals.insert(name, r), ..self };
                            t.lemma_replace(1, r, 2);
                        },
                    }
                }
            },
        }
    }

    proof fn lemma_op_set_local(self)
        requires
            self.wf(),
            self.active(),
        ensures
            self.op_set_local().wf(),
    {
        let slot = self.base() + self.operand();
        if self.depth() >= 1 && slot < self.stack.len() - 1 {
            match self.resolve(self.peek(0)) {
                None => {},
                Some(r) => {
                    self.lemma_resolved(self.peek(0));
                    match self.stack[slot] {
                        ValueView::HeapedData(h) => {
                            if h < self.heap.len() {
                                Self::lemma_flat_update(self.heap, h as int, r);
                                self.store(h, r).lemma_replace(1, r, 2);
                            }
                        },
                        _ => {
                            let t = VMView { stack: self.stack.update(slot, r), ..self };
                            self.lemma_base();
                            self.lemma_stack(t.stack);
                            t.lemma_replace(1, r, 2);
                        },
                    }
                },
            }
        }
    }

    proof fn lemma_op_set_upvalue(self)
        requires
            self.wf(),
            self.active(),
        ensures
            self.op_set_upvalue().wf(),
    {
        let cells = self.frame().closure.upvalues;
        if self.operand() < cells.len() && self.depth() >= 1 {
            let h = cells[self.operand()];
            match self.resolve(self.peek(0)) {
                None => {},
                Some(r) => {
                    self.lemma_resolved(self.peek(0));
                    if h < self.heap.len() {
                        Self::lemma_flat_update(self.heap, h as int, r);
                        self.store(h, r).lemma_jump_to(self.ip() + 2);
                    }
                },
            }
        }
    }

    proof fn lemma_op_call(self)
        requires
            self.wf(),
            self.active(),
        ensures
            self.op_call().wf(),
    {
        let n = self.operand();
        if self.depth() >= 1 {
            match self.resolve(self.peek(0)) {
                Some(ValueView::Closure(c)) => {
                    if c.function.arity == n && self.depth() - 1 >= n && self.frames.len()
                        < self.frame_cap {
                        self.lemma_replace(1, ValueView::Nil, 2);
                        let s = self.drop(1).advance(2);
                        s.lemma_base();
                        Self::lemma_nested_push(
                            s.frames,
                            s.stack.len() as int,
                            FrameView {
                                ip: 0,
                                closure: c,
                                stack_start: (s.stack.len() - n) as nat,
                            },
                        );
                    }
                },
                Some(ValueView::Native(name)) => {
                    if self.depth() >= 2 {
                        match self.resolve(self.peek(1)) {
                            None => {},
                            Some(arg) => {
                                self.lemma_finish(
                                    2,
                                    native_call_spec(ValueView::Native(name), arg),
                                    2,
                                );
                            },
                        }
                    }
                },
                _ => {},
            }
        }
    }

    proof fn lemma_op_jumps(self)
        requires
            self.wf(),
            self.active(),
        ensures
            self.op_jump_if_false().wf(),
            forall|target: int| (#[trigger] self.land(target)).wf(),
    {
        if self.depth() >= 1 {
            self.lemma_replace(1, ValueView::Nil, 3);
            self.drop(1).lemma_jump_to(self.ip() + self.wide_operand());
        }
        assert forall|target: int| (#[trigger] self.land(target)).wf() by {
            self.lemma_jump_to(target);
        }
    }

    proof fn lemma_capture(self, is_local: u8, index: u8, cells: Seq<usize>, own: Option<usize>)
        requires
            self.wf(),
            self.frames.len() > 0,
            own matches Some(h) ==> h < self.heap.len(),
        ensures
            ({
                let c = self.capture(is_local, index, cells, own);
                &&& c.vm.wf()
                &&& c.vm.frames == self.frames
                &&& c.vm.stack.len() == self.stack.len()
                &&& c.vm.status == self.status
                &&& c.vm.heap.len() >= self.heap.len()
                &&& c.own matches Some(h) ==> h < c.vm.heap.len()
            }),
    {
        let c = self.capture(is_local, index, cells, own);
        let slot = self.base() + index;
        self.lemma_base();
        if is_local != 0 && slot < self.stack.len() {
            let v = self.stack[slot];
            if !(v is HeapedData) {
                Self::lemma_flat_push(self.heap, v);
                Self::lemma_nested_top(
                    self.frames,
                    self.stack.len() as int,
                    c.vm.stack.len() as int,
                );
            }
        }
        if is_local != 0 && slot == self.stack.len() && own is None {
            Self::lemma_flat_push(self.heap, ValueView::Nil);
        }
    }

    /// What the captures of `MakeClosure` leave as it was: the frames, the
    /// height of the stack, the status. The heap only grows.
    proof fn lemma_capture_from(self, j: nat, n: nat, cells: Seq<usize>, own: Option<usize>)
        requires
            self.wf(),
            self.frames.len() > 0,
            own matches Some(h) ==> h < self.heap.len(),
        ensures
            ({
                let c = self.capture_from(j, n, cells, own);
                &&& c.vm.wf()
                &&& c.vm.frames == self.frames
                &&& c.vm.stack.len() == self.stack.len()
                &&& c.vm.status == self.status
                &&& c.vm.heap.len() >= self.heap.len()
                &&& c.own matches Some(h) ==> h < c.vm.heap.len()
            }),
        decreases n - j,
    {
        if j < n {
            let code = self.chunk().code;
            let c = self.capture(code[self.ip() + 2 + 2 * j], code[self.ip() + 3 + 2 * j], cells, own);
            self.lemma_capture(code[self.ip() + 2 + 2 * j], code[self.ip() + 3 + 2 * j], cells, own);
            if c.ok {
                c.vm.lemma_capture_from(j + 1, n, c.cells, c.own);
            }
        }
    }

    proof fn lemma_op_make_closure(self)
        requires
            self.wf(),
            self.active(),
        ensures
            self.op_make_closure().wf(),
    {
        if self.operand() < self.chunk().constants.len() {
            match self.chunk().constants[self.operand()] {
                ValueView::Function(f) => {
                    self.lemma_capture_from(0, f.upvalue_count, Seq::empty(), None);
                    let c = self.capture_from(0, f.upvalue_count, Seq::empty(), None);
                    let closure = ValueView::Closure(
                        ClosureView { function: f, upvalues: c.cells },
                    );
                    let by = 2 + 2 * (f.upvalue_count as int);
                    c.vm.lemma_base();
                    c.vm.lemma_replace(0, closure, by);
                    assert(c.vm.drop(0).stack =~= c.vm.stack);
                    match c.own {
                        Some(h) => {
                            Self::lemma_flat_update(c.vm.heap, h as int, closure);
                            c.vm.store(h, closure).lemma_replace(0, ValueView::HeapedData(h), by);
                            assert(c.vm.store(h, closure).drop(0).stack =~= c.vm.stack);
                        },
                        None => {},
                    }
                },
                _ => {},
            }
        }
    }

    proof fn lemma_execute(self, op: Op)
        requires
            self.wf(),
            self.active(),
        ensures
            self.execute(op).wf(),
    {
        match op {
            Op::Return => self.lemma_op_return(),
            Op::Pop | Op::LoadTrue => self.lemma_op_pop(),
            Op::Negate | Op::Add | Op::Subtract | Op::Multiply | Op::Divide | Op::IsEqual => self.lemma_op_operate(
                op,
            ),
            Op::LoadConstant | Op::GetGlobal | Op::GetLocal | Op::GetUpvalue => self.lemma_op_load(),
            Op::SetGlobal => self.lemma_op_set_global(),
            Op::SetLocal => self.lemma_op_set_local(),
            Op::SetUpvalue => self.lemma_op_set_upvalue(),
            Op::Call => self.lemma_op_call(),
            Op::MakeClosure => self.lemma_op_make_closure(),
            Op::JumpIfFalse | Op::Jump | Op::AbsJump => self.lemma_op_jumps(),
        }
    }

    /// A step keeps the frames nested: after it, as before it, the first
    /// frame starts at the bottom of the stack, no frame starts below the
    /// one before it, and the last frame starts within the stack. So the
    /// frame that a call pushes starts within the stack, and a return
    /// leaves the stack at the height at which the frame that it popped
    /// started, with the result on top of it.
    pub proof fn law_step_keeps_frames_nested(self)
        requires
            self.wf(),
        ensures
            self.step().wf(),
    {
        if self.active() && self.ip() < self.chunk().code.len() {
            match self.fetch() {
                None => {},
                Some(op) => {
                    self.lemma_execute(op);
                },
            }
        } else if self.active() {
            assert(self.step().frames == self.frames);
        }
    }

    /// An answer of the host keeps the frames nested.
    pub proof fn law_resume_keeps_frames_nested(self, answer: ValueView)
        requires
            self.wf(),
        ensures
            self.resume(answer).wf(),
    {
        if self.status is Waiting {
            self.lemma_base();
            VMView { status: StatusView::Running, ..self }.lemma_stack(self.stack.push(answer));
        }
    }

    /// A run keeps the frames nested.
    pub proof fn law_run_keeps_frames_nested(self, budget: nat)
        requires
            self.wf(),
        ensures
            self.run(budget).wf(),
        decreases budget,
    {
        if budget > 0 && self.status is Running {
            self.law_step_keeps_frames_nested();
            self.step().law_run_keeps_frames_nested((budget - 1) as nat);
        }
    }
}

} // verus!

verus! {

/// The machine. Its cells live in a heap of its own and are named by
/// their index there; a cell is never freed, so a machine that runs one
/// program after another keeps the cells of all of them.
pub struct VM<'a> {
    frames: Vec<CallFrame>,
    ffi: &'a FFI,
    stack: Vec<Value>,
    globals: Globals,
    heap: Vec<Value>,
    status: Status,
    frame_cap: usize,
}

/// The number of nested calls that a machine allows unless it is told
/// otherwise.
pub const DEFAULT_FRAME_CAP: usize = 1024;

impl<'a> View for VM<'a> {
    type V = VMView;

    closed spec fn view(&self) -> VMView {
        VMView {
            frames: frames_view(self.frames@),
            stack: values_view(self.stack@),
            globals: self.globals@,
            heap: values_view(self.heap@),
            natives: self.ffi@,
            status: self.status@,
            frame_cap: self.frame_cap as nat,
        }
    }
}

impl<'a> VM<'a> {
    /// The machine is in order: its model is well formed, and so is what
    /// it keeps its global variables in.
    pub closed spec fn wf(&self) -> bool {
        self.globals.wf() && self@.wf()
    }

    /// A machine that is about to run `c` on an empty stack, with no
    /// global variable defined and the host functions `natives`.
    pub fn new(c: Closure, natives: &'a FFI) -> (vm: VM<'a>)
        ensures
            vm.wf(),
            vm@.wf(),
            vm@ == (VMView {
                frames: seq![FrameView { ip: 0, closure: c@, stack_start: 0 }],
                stack: Seq::empty(),
                globals: Map::empty(),
                heap: Seq::empty(),
                natives: natives@,
                status: StatusView::Running,
                frame_cap: DEFAULT_FRAME_CAP as nat,
            }),
    {
        let mut frames: Vec<CallFrame> = Vec::new();
        frames.push(CallFrame::new(c, 0));
        let vm = VM {
            frames,
            ffi: natives,
            stack: Vec::new(),
            globals: Globals::new(),
            heap: Vec::new(),
            status: Status::Running,
            frame_cap: DEFAULT_FRAME_CAP,
        };
        proof {
            reveal(nested);
            reveal(flat);
            assert(vm@.frames =~= seq![FrameView { ip: 0, closure: c@, stack_start: 0 }]);
            assert(vm@.stack =~= Seq::empty());
            assert(vm@.heap =~= Seq::empty());
        }
        vm
    }

    fn fail(&mut self, e: RuntimeError)
        requires
            old(self).wf(),
        ensures
            final(self).globals.wf(),
            final(self)@ == old(self)@.fail(e),
    {
        self.status = Status::Failed(e);
    }

    fn ask(&mut self, r: Request)
        requires
            old(self).globals.wf(),
        ensures
            final(self).globals.wf(),
            final(self)@ == old(self)@.request(r@),
    {
        self.status = Status::Waiting(r);
    }

    fn set_ip(&mut self, ip: usize)
        requires
            old(self).globals.wf(),
            old(self)@.frames.len() > 0,
        ensures
            final(self).globals.wf(),
            final(self)@ == old(self)@.jump_to(ip as int),
    {
        let last = self.frames.len() - 1;
        self.frames[last].ip = ip;
        assert(self@.frames =~= old(self)@.jump_to(ip as int).frames);
    }

    fn push_value(&mut self, v: Value)
        requires
            old(self).globals.wf(),
        ensures
            final(self).globals.wf(),
            final(self)@ == old(self)@.push(v@),
    {
        self.stack.push(v);
        assert(self@.stack =~= old(self)@.stack.push(v@));
    }

    fn drop_values(&mut self, n: usize)
        requires
            old(self).globals.wf(),
            n <= old(self)@.stack.len(),
        ensures
            final(self).globals.wf(),
            final(self)@ == old(self)@.drop(n as int),
    {
        let len = self.stack.len();
        self.stack.truncate(len - n);
        assert(self@.stack =~= old(self)@.drop(n as int).stack);
    }

    fn store(&mut self, h: usize, v: Value)
        requires
            old(self).globals.wf(),
            h < old(self)@.heap.len(),
        ensures
            final(self).globals.wf(),
            final(self)@ == old(self)@.store(h, v@),
    {
        self.heap[h] = v;
        assert(self@.heap =~= old(self)@.heap.update(h as int, v@));
    }
}

} // verus!

verus! {

/// Negates a value that is no reference to a cell.
pub fn negate(x: &Value) -> (o: Outcome)
    ensures
        o@ == negate_spec(x@),
{
    match x {
        Value::Bool(b) => Outcome::Push(Value::Bool(!*b)),
        Value::Int(i) => {
            let zero: isize = 0;
            match zero.checked_sub(*i) {
                Some(r) => Outcome::Push(Value::Int(r)),
                None => Outcome::Fail(RuntimeError::Overflow),
            }
        },
        Value::Float(bits) => Outcome::Ask(
            Request::Float { op: Op::Negate, x: Value::Float(*bits), y: Value::Nil },
        ),
        _ => Outcome::Fail(RuntimeError::TypeError),
    }
}

/// Computes `op`, one of `Add`, `Subtract`, `Multiply` and `Divide`, on two
/// values that are no references to cells.
pub fn arith(op: Op, x: &Value, y: &Value) -> (o: Outcome)
    ensures
        o@ == arith_spec(op, x@, y@),
{
    match (x, y) {
        (Value::Int(a), Value::Int(b)) => {
            let r = match op {
                Op::Divide => {
                    if *b == 0 {
                        return Outcome::Fail(RuntimeError::DivisionByZero);
                    } else {
                        return Outcome::Ask(
                            Request::Float { op, x: Value::Int(*a), y: Value::Int(*b) },
                        );
                    }
                },
                Op::Add => a.checked_add(*b),
                Op::Subtract => a.checked_sub(*b),
                _ => a.checked_mul(*b),
            };
            match r {
                Some(r) => Outcome::Push(Value::Int(r)),
                None => Outcome::Fail(RuntimeError::Overflow),
            }
        },
        (Value::Int(a), Value::Float(b)) => Outcome::Ask(
            Request::Float { op, x: Value::Int(*a), y: Value::Float(*b) },
        ),
        (Value::Float(a), Value::Int(b)) => Outcome::Ask(
            Request::Float { op, x: Value::Float(*a), y: Value::Int(*b) },
        ),
        (Value::Float(a), Value::Float(b)) => Outcome::Ask(
            Request::Float { op, x: Value::Float(*a), y: Value::Float(*b) },
        ),
        _ => Outcome::Fail(RuntimeError::TypeError),
    }
}

/// Compares two values that are no references to cells.
pub fn equal(x: &Value, y: &Value) -> (o: Outcome)
    ensures
        o@ == equal_spec(x@, y@),
{
    match (x, y) {
        (Value::Int(a), Value::Int(b)) => Outcome::Push(Value::Bool(*a == *b)),
        (Value::Bool(a), Value::Bool(b)) => Outcome::Push(Value::Bool(*a == *b)),
        (Value::Float(a), Value::Float(b)) => Outcome::Ask(
            Request::Float { op: Op::IsEqual, x: Value::Float(*a), y: Value::Float(*b) },
        ),
        _ => Outcome::Push(Value::Bool(false)),
    }
}

impl<'a> VM<'a> {
    fn ip(&self) -> (ip: usize)
        requires
            self@.frames.len() > 0,
        ensures
            ip == self@.ip(),
            self@.chunk().code.len() <= usize::MAX,
    {
        let frame = &self.frames[self.frames.len() - 1];
        let _ = frame.closure.function.chunk.code.len();
        frame.ip
    }

    fn base(&self) -> (b: usize)
        requires
            self@.frames.len() > 0,
        ensures
            b == self@.base(),
    {
        self.frames[self.frames.len() - 1].stack_start
    }

    /// The closure that runs.
    fn closure(&self) -> (c: &Closure)
        requires
            self@.frames.len() > 0,
        ensures
            c@ == self@.frame().closure,
    {
        &self.frames[self.frames.len() - 1].closure
    }

    fn code_len(&self) -> (n: usize)
        requires
            self@.frames.len() > 0,
        ensures
            n == self@.chunk().code.len(),
    {
        self.closure().function.chunk.code.len()
    }

    fn byte_at(&self, i: usize) -> (b: u8)
        requires
            self@.frames.len() > 0,
            i < self@.chunk().code.len(),
        ensures
            b == self@.chunk().code[i as int],
    {
        self.closure().function.chunk.code[i]
    }

    fn double_at(&self, i: usize) -> (d: usize)
        requires
            self@.frames.len() > 0,
            i + 1 < self@.chunk().code.len(),
        ensures
            d == self@.chunk().double_at(i as int),
            d <= 0xffff,
    {
        self.closure().function.chunk.read_byte_double(i)
    }

    /// The constant with the index `k`, if the pool has one.
    fn constant(&self, k: usize) -> (r: Option<&Value>)
        requires
            self@.frames.len() > 0,
        ensures
            match r {
                Some(v) => k < self@.chunk().constants.len() && v@ == self@.chunk().constants[k as int],
                None => k >= self@.chunk().constants.len(),
            },
    {
        let constants = &self.closure().function.chunk.constants;
        if k < constants.len() {
            Some(&constants[k])
        } else {
            None
        }
    }

    /// What the value at `n` below the top of the stack stands for.
    fn peek_resolved(&self, n: usize) -> (r: Option<&Value>)
        requires
            n < self@.stack.len(),
        ensures
            match r {
                Some(v) => self@.resolve(self@.peek(n as int)) == Some(v@),
                None => self@.resolve(self@.peek(n as int)) is None,
            },
    {
        let v = &self.stack[self.stack.len() - 1 - n];
        match v {
            Value::HeapedData(h) => if *h < self.heap.len() {
                Some(&self.heap[*h])
            } else {
                None
            },
            _ => Some(v),
        }
    }

    fn finish(&mut self, n: usize, o: Outcome, by: usize)
        requires
            old(self).wf(),
            old(self)@.active(),
            n <= old(self)@.depth(),
            old(self)@.ip() + by <= old(self)@.chunk().code.len(),
        ensures
            final(self).globals.wf(),
            final(self)@ == old(self)@.finish(n as int, o@, by as int),
    {
        proof {
            self@.lemma_base();
        }
        let len = self.code_len();
        let next = self.ip() + by;
        match o {
            Outcome::Push(v) => {
                self.drop_values(n);
                self.push_value(v);
                self.set_ip(next);
            },
            Outcome::Ask(r) => {
                self.drop_values(n);
                self.ask(r);
                self.set_ip(next);
            },
            Outcome::Fail(e) => {
                self.fail(e);
            },
        }
    }
}

} // verus!

verus! {

impl VMView {
    /// Whether the machine is about to execute the instruction `op`.
    pub open spec fn at(self, op: Op) -> bool {
        self.active() && self.fetch() == Some(op)
    }
}

impl<'a> VM<'a> {
    fn op_return(&mut self)
        requires
            old(self).wf(),
            old(self)@.at(Op::Return),
        ensures
            final(self).globals.wf(),
            final(self)@ == old(self)@.op_return(),
    {
        proof {
            self@.lemma_base();
        }
        let base = self.base();
        if self.stack.len() <= base {
            self.fail(RuntimeError::Malformed);
            return ;
        }
        if self.frames.len() == 1 {
            let r = match self.peek_resolved(0) {
                None => {
                    self.fail(RuntimeError::Malformed);
                    return ;
                },
                Some(r) => r.clone(),
            };
            self.frames.pop();
            self.stack.truncate(base);
            self.status = Status::Finished(r);
            assert(self@.frames =~= old(self)@.frames.drop_last());
            assert(self@.stack =~= old(self)@.stack.subrange(0, base as int));
        } else {
            let v = self.stack.pop().unwrap();
            self.frames.pop();
            self.stack.truncate(base);
            self.stack.push(v);
            assert(self@.frames =~= old(self)@.frames.drop_last());
            assert(self@.stack =~= old(self)@.stack.subrange(0, base as int).push(
                old(self)@.peek(0),
            ));
        }
    }

    fn op_pop(&mut self)
        requires
            old(self).wf(),
            old(self)@.at(Op::Pop),
        ensures
            final(self).globals.wf(),
            final(self)@ == old(self)@.op_pop(),
    {
        proof {
            self@.lemma_base();
        }
        let next = self.ip() + 1;
        if self.stack.len() <= self.base() {
            self.fail(RuntimeError::Malformed);
        } else {
            self.drop_values(1);
            self.set_ip(next);
        }
    }

    fn op_load_true(&mut self)
        requires
            old(self).wf(),
            old(self)@.at(Op::LoadTrue),
        ensures
            final(self).globals.wf(),
            final(self)@ == old(self)@.push(ValueView::Bool(true)).advance(1),
    {
        let next = self.ip() + 1;
        self.push_value(Value::Bool(true));
        self.set_ip(next);
    }

    fn op_negate(&mut self)
        requires
            old(self).wf(),
            old(self)@.at(Op::Negate),
        ensures
            final(self).globals.wf(),
            final(self)@ == old(self)@.op_negate(),
    {
        proof {
            self@.lemma_base();
        }
        if self.stack.len() <= self.base() {
            self.fail(RuntimeError::Malformed);
            return ;
        }
        let o = match self.peek_resolved(0) {
            None => Outcome::Fail(RuntimeError::Malformed),
            Some(x) => negate(x),
        };
        self.finish(1, o, 1);
    }

    fn op_binary(&mut self, op: Op)
        requires
            old(self).wf(),
            old(self)@.at(op),
            op.spec_width() == 1,
        ensures
            final(self).globals.wf(),
            op == Op::IsEqual ==> final(self)@ == old(self)@.op_is_equal(),
            op != Op::IsEqual ==> final(self)@ == old(self)@.op_arith(op),
    {
        proof {
            self@.lemma_base();
        }
        if self.stack.len() - self.base() < 2 {
            self.fail(RuntimeError::Malformed);
            return ;
        }
        let o = match (self.peek_resolved(1), self.peek_resolved(0)) {
            (Some(x), Some(y)) => match op {
                Op::IsEqual => equal(x, y),
                _ => arith(op, x, y),
            },
            _ => Outcome::Fail(RuntimeError::Malformed),
        };
        self.finish(2, o, 1);
    }

    fn op_load_constant(&mut self)
        requires
            old(self).wf(),
            old(self)@.at(Op::LoadConstant),
        ensures
            final(self).globals.wf(),
            final(self)@ == old(self)@.op_load_constant(),
    {
        let ip = self.ip();
        let k = self.byte_at(ip + 1) as usize;
        let v = match self.constant(k) {
            None => {
                self.fail(RuntimeError::Malformed);
                return ;
            },
            Some(v) => v.clone(),
        };
        self.push_value(v);
        self.set_ip(ip + 2);
    }

    /// The name that the operand of a global access refers to.
    fn global_name(&self) -> (r: Option<String>)
        requires
            self.wf(),
            self@.active(),
            self@.ip() + 2 <= self@.chunk().code.len(),
        ensures
            match r {
                Some(name) => self@.global_name() == Some(name@),
                None => self@.global_name() is None,
            },
    {
        let k = self.byte_at(self.ip() + 1) as usize;
        match self.constant(k) {
            Some(Value::Str(name)) => Some(name.clone()),
            _ => None,
        }
    }

    fn op_set_global(&mut self)
        requires
            old(self).wf(),
            old(self)@.at(Op::SetGlobal),
        ensures
            final(self).globals.wf(),
            final(self)@ == old(self)@.op_set_global(),
    {
        proof {
            self@.lemma_base();
        }
        let next = self.ip() + 2;
        let name = match self.global_name() {
            None => {
                self.fail(RuntimeError::Malformed);
                return ;
            },
            Some(name) => name,
        };
        if self.stack.len() <= self.base() {
            self.fail(RuntimeError::Malformed);
            return ;
        }
        let r = match self.peek_resolved(0) {
            None => {
                self.fail(RuntimeError::Malformed);
                return ;
            },
            Some(r) => r.clone(),
        };
        self.globals.set(name, r);
        self.drop_values(1);
        self.set_ip(next);
    }

    fn op_get_global(&mut self)
        requires
            old(self).wf(),
            old(self)@.at(Op::GetGlobal),
        ensures
            final(self).globals.wf(),
            final(self)@ == old(self)@.op_get_global(),
    {
        let next = self.ip() + 2;
        let name = match self.global_name() {
            None => {
                self.fail(RuntimeError::Malformed);
                return ;
            },
            Some(name) => name,
        };
        if self.ffi.has(&name) {
            self.push_value(Value::Native(name));
            self.set_ip(next);
        } else {
            let v = match self.globals.get(&name) {
                None => {
                    self.fail(RuntimeError::UnboundGlobal);
                    return ;
                },
                Some(v) => v.clone(),
            };
            self.push_value(v);
            self.set_ip(next);
        }
    }

    fn op_set_local(&mut self)
        requires
            old(self).wf(),
            old(self)@.at(Op::SetLocal),
        ensures
            final(self).globals.wf(),
            final(self)@ == old(self)@.op_set_local(),
    {
        proof {
            self@.lemma_base();
        }
        let ip = self.ip();
        let index = self.byte_at(ip + 1) as usize;
        let base = self.base();
        let len = self.stack.len();
        if len <= base || index >= len - 1 - base {
            self.fail(RuntimeError::Malformed);
            return ;
        }
        let slot = base + index;
        let r = match self.peek_resolved(0) {
            None => {
                self.fail(RuntimeError::Malformed);
                return ;
            },
            Some(r) => r.clone(),
        };
        let cell = match &self.stack[slot] {
            Value::HeapedData(h) => Some(*h),
            _ => None,
        };
        match cell {
            Some(h) => {
                if h < self.heap.len() {
                    self.store(h, r);
                } else {
                    self.fail(RuntimeError::Malformed);
                    return ;
                }
            },
            None => {
                self.stack[slot] = r;
                assert(self@.stack =~= old(self)@.stack.update(slot as int, r@));
            },
        }
        self.drop_values(1);
        self.set_ip(ip + 2);
    }

    fn op_get_local(&mut self)
        requires
            old(self).wf(),
            old(self)@.at(Op::GetLocal),
        ensures
            final(self).globals.wf(),
            final(self)@ == old(self)@.op_get_local(),
    {
        proof {
            self@.lemma_base();
        }
        let ip = self.ip();
        let index = self.byte_at(ip + 1) as usize;
        let base = self.base();
        if index >= self.stack.len() - base {
            self.fail(RuntimeError::Malformed);
            return ;
        }
        let v = self.stack[base + index].clone();
        self.push_value(v);
        self.set_ip(ip + 2);
    }

    fn op_get_upvalue(&mut self)
        requires
            old(self).wf(),
            old(self)@.at(Op::GetUpvalue),
        ensures
            final(self).globals.wf(),
            final(self)@ == old(self)@.op_get_upvalue(),
    {
        let ip = self.ip();
        let index = self.byte_at(ip + 1) as usize;
        if index >= self.closure().upvalues.len() {
            self.fail(RuntimeError::Malformed);
            return ;
        }
        let h = self.closure().upvalues[index];
        self.push_value(Value::HeapedData(h));
        self.set_ip(ip + 2);
    }

    fn op_set_upvalue(&mut self)
        requires
            old(self).wf(),
            old(self)@.at(Op::SetUpvalue),
        ensures
            final(self).globals.wf(),
            final(self)@ == old(self)@.op_set_upvalue(),
    {
        proof {
            self@.lemma_base();
        }
        let ip = self.ip();
        let index = self.byte_at(ip + 1) as usize;
        if index >= self.closure().upvalues.len() || self.stack.len() <= self.base() {
            self.fail(RuntimeError::Malformed);
            return ;
        }
        let h = self.closure().upvalues[index];
        let r = match self.peek_resolved(0) {
            None => {
                self.fail(RuntimeError::Malformed);
                return ;
            },
            Some(r) => r.clone(),
        };
        if h < self.heap.len() {
            self.store(h, r);
            self.set_ip(ip + 2);
        } else {
            self.fail(RuntimeError::Malformed);
        }
    }

    fn op_call(&mut self)
        requires
            old(self).wf(),
            old(self)@.at(Op::Call),
        ensures
            final(self).globals.wf(),
            final(self)@ == old(self)@.op_call(),
    {
        proof {
            self@.lemma_base();
        }
        let ip = self.ip();
        let n = self.byte_at(ip + 1) as usize;
        let depth = self.stack.len() - self.base();
        if depth < 1 {
            self.fail(RuntimeError::Malformed);
            return ;
        }
        let callee = match self.peek_resolved(0) {
            None => {
                self.fail(RuntimeError::Malformed);
                return ;
            },
            Some(f) => f.clone(),
        };
        match callee {
            Value::Closure(c) => {
                if c.function.arity != n {
                    self.fail(RuntimeError::ArityMismatch);
                } else if depth - 1 < n {
                    self.fail(RuntimeError::Malformed);
                } else if self.frames.len() >= self.frame_cap {
                    self.fail(RuntimeError::StackOverflow);
                } else {
                    self.drop_values(1);
                    self.set_ip(ip + 2);
                    let start = self.stack.len() - n;
                    let ghost before = self@;
                    let frame = CallFrame::new(c, start);
                    self.frames.push(frame);
                    assert(self@.frames =~= before.frames.push(frame@));
                }
            },
            Value::Native(name) => {
                if depth < 2 {
                    self.fail(RuntimeError::Malformed);
                } else {
                    let o = match self.peek_resolved(1) {
                        None => Outcome::Fail(RuntimeError::Malformed),
                        Some(arg) => Outcome::Ask(Request::Native { name, arg: arg.clone() }),
                    };
                    self.finish(2, o, 2);
                }
            },
            _ => {
                self.fail(RuntimeError::NotCallable);
            },
        }
    }

    fn op_jump_if_false(&mut self)
        requires
            old(self).wf(),
            old(self)@.at(Op::JumpIfFalse),
        ensures
            final(self).globals.wf(),
            final(self)@ == old(self)@.op_jump_if_false(),
    {
        proof {
            self@.lemma_base();
        }
        let ip = self.ip();
        let len = self.code_len();
        if self.stack.len() <= self.base() {
            self.fail(RuntimeError::Malformed);
            return ;
        }
        let falsey = match self.peek_resolved(0) {
            None => {
                self.fail(RuntimeError::Malformed);
                return ;
            },
            Some(c) => c.is_falsey(),
        };
        if falsey {
            let d = self.double_at(ip + 1);
            if d > len - ip {
                self.fail(RuntimeError::Malformed);
            } else {
                self.drop_values(1);
                self.set_ip(ip + d);
            }
        } else {
            self.drop_values(1);
            self.set_ip(ip + 3);
        }
    }

    fn op_jump(&mut self, op: Op)
        requires
            old(self).wf(),
            old(self)@.at(op),
            op == Op::Jump || op == Op::AbsJump,
        ensures
            final(self).globals.wf(),
            op == Op::Jump ==> final(self)@ == old(self)@.land(
                old(self)@.ip() + old(self)@.wide_operand(),
            ),
            op == Op::AbsJump ==> final(self)@ == old(self)@.land(old(self)@.wide_operand()),
    {
        let ip = self.ip();
        let len = self.code_len();
        let d = self.double_at(ip + 1);
        let from: usize = match op {
            Op::Jump => ip,
            _ => 0,
        };
        if d > len - from {
            self.fail(RuntimeError::Malformed);
        } else {
            self.set_ip(from + d);
        }
    }
}

} // verus!

verus! {

impl<'a> VM<'a> {
    fn capture(
        &mut self,
        is_local: u8,
        index: u8,
        cells: &mut Vec<usize>,
        own: &mut Option<usize>,
    ) -> (ok: bool)
        requires
            old(self).wf(),
            old(self)@.frames.len() > 0,
        ensures
            final(self).globals.wf(),
            ({
                let c = old(self)@.capture(is_local, index, old(cells)@, *old(own));
                &&& final(self)@ == c.vm
                &&& final(cells)@ == c.cells
                &&& *final(own) == c.own
                &&& ok == c.ok
            }),
    {
        proof {
            self@.lemma_base();
        }
        let home = self.stack.len();
        let fresh = self.heap.len();
        let index = index as usize;
        if is_local != 0 {
            let base = self.base();
            if index < home - base {
                let slot = base + index;
                let cell = match &self.stack[slot] {
                    Value::HeapedData(h) => Some(*h),
                    _ => None,
                };
                match cell {
                    Some(h) => {
                        cells.push(h);
                    },
                    None => {
                        let v = self.stack[slot].clone();
                        self.stack[slot] = Value::HeapedData(fresh);
                        self.heap.push(v);
                        cells.push(fresh);
                        assert(self@.stack =~= old(self)@.stack.update(
                            slot as int,
                            ValueView::HeapedData(fresh),
                        ));
                        assert(self@.heap =~= old(self)@.heap.push(old(self)@.stack[slot as int]));
                    },
                }
                true
            } else if index == home - base {
                match *own {
                    Some(h) => {
                        cells.push(h);
                    },
                    None => {
                        self.heap.push(Value::Nil);
                        cells.push(fresh);
                        *own = Some(fresh);
                        assert(self@.heap =~= old(self)@.heap.push(ValueView::Nil));
                    },
                }
                true
            } else {
                false
            }
        } else {
            if index < self.closure().upvalues.len() {
                cells.push(self.closure().upvalues[index]);
                true
            } else {
                false
            }
        }
    }

    fn op_make_closure(&mut self)
        requires
            old(self).wf(),
            old(self)@.at(Op::MakeClosure),
        ensures
            final(self).globals.wf(),
            final(self)@ == old(self)@.op_make_closure(),
    {
        let ip = self.ip();
        let len = self.code_len();
        let k = self.byte_at(ip + 1) as usize;
        let function = match self.constant(k) {
            Some(Value::Function(f)) => f.clone(),
            _ => {
                self.fail(RuntimeError::Malformed);
                return ;
            },
        };
        let n = function.upvalue_count;
        if n > (len - ip - 2) / 2 {
            self.fail(RuntimeError::Malformed);
            return ;
        }
        let mut cells: Vec<usize> = Vec::new();
        let mut own: Option<usize> = None;
        let mut j: usize = 0;
        while j < n
            invariant
                j <= n,
                ip + 2 + 2 * n <= len,
                old(self)@.at(Op::MakeClosure),
                old(self)@.ip() == ip,
                old(self)@.chunk().code.len() == len,
                old(self)@.operand() < old(self)@.chunk().constants.len(),
                old(self)@.chunk().constants[old(self)@.operand()] == ValueView::Function(
                    function@,
                ),
                n == function@.upvalue_count,
                self.wf(),
                self@.frames == old(self)@.frames,
                self@.frames.len() > 0,
                ip == self@.ip(),
                len == self@.chunk().code.len(),
                own matches Some(h) ==> h < self@.heap.len(),
                self@.capture_from(j as nat, n as nat, cells@, own) == old(self)@.capture_from(
                    0,
                    n as nat,
                    Seq::empty(),
                    None,
                ),
            decreases n - j,
        {
            let is_local = self.byte_at(ip + 2 + 2 * j);
            let index = self.byte_at(ip + 3 + 2 * j);
            proof {
                self@.lemma_capture(is_local, index, cells@, own);
                let c = self@.capture(is_local, index, cells@, own);
                assert(self@.capture_from(j as nat, n as nat, cells@, own) == if c.ok {
                    c.vm.capture_from((j + 1) as nat, n as nat, c.cells, c.own)
                } else {
                    c
                });
            }
            let ok = self.capture(is_local, index, &mut cells, &mut own);
            if !ok {
                self.fail(RuntimeError::Malformed);
                return ;
            }
            j += 1;
        }
        let closure = Value::Closure(Closure { function, upvalues: cells });
        match own {
            Some(h) => {
                self.store(h, closure);
                self.push_value(Value::HeapedData(h));
            },
            None => {
                self.push_value(closure);
            },
        }
        self.set_ip(ip + 2 + 2 * n);
    }

    /// What the machine is in.
    pub fn signal(&self) -> (sig: Signal)
        ensures
            sig == self@.status.signal(),
    {
        match &self.status {
            Status::Running => Signal::Paused,
            Status::Waiting(_) => Signal::Waiting,
            Status::Finished(_) => Signal::Done(VMResult::Success),
            Status::Failed(_) => Signal::Done(VMResult::Error),
        }
    }

    /// Executes one instruction, if the machine runs.
    pub fn step(&mut self) -> (sig: Signal)
        requires
            old(self).wf(),
        ensures
            final(self).wf(),
            final(self)@.wf(),
            final(self)@ == old(self)@.step(),
            sig == final(self)@.status.signal(),
    {
        proof {
            self@.law_step_keeps_frames_nested();
        }
        if !matches!(self.status, Status::Running) || self.frames.len() == 0 {
            return self.signal();
        }
        let ip = self.ip();
        let len = self.code_len();
        if ip >= len {
            self.status = Status::Finished(Value::Nil);
            return self.signal();
        }
        let op = match Op::try_from_u8(self.byte_at(ip)) {
            Some(op) => op,
            None => {
                self.fail(RuntimeError::Malformed);
                return self.signal();
            },
        };
        if op.width() > len - ip {
            self.fail(RuntimeError::Malformed);
            return self.signal();
        }
        match op {
            Op::Return => self.op_return(),
            Op::Pop => self.op_pop(),
            Op::LoadTrue => self.op_load_true(),
            Op::Negate => self.op_negate(),
            Op::Add | Op::Subtract | Op::Multiply | Op::Divide | Op::IsEqual => self.op_binary(op),
            Op::LoadConstant => self.op_load_constant(),
            Op::SetGlobal => self.op_set_global(),
            Op::GetGlobal => self.op_get_global(),
            Op::SetLocal => self.op_set_local(),
            Op::GetLocal => self.op_get_local(),
            Op::GetUpvalue => self.op_get_upvalue(),
            Op::SetUpvalue => self.op_set_upvalue(),
            Op::Call => self.op_call(),
            Op::MakeClosure => self.op_make_closure(),
            Op::JumpIfFalse => self.op_jump_if_false(),
            Op::Jump | Op::AbsJump => self.op_jump(op),
        }
        self.signal()
    }

    /// Executes instructions until the machine does not run any more, but
    /// at most `budget` of them.
    pub fn run(&mut self, budget: usize) -> (sig: Signal)
        requires
            old(self).wf(),
        ensures
            final(self).wf(),
            final(self)@.wf(),
            final(self)@ == old(self)@.run(budget as nat),
            sig == final(self)@.status.signal(),
    {
        let mut left = budget;
        let mut sig = self.signal();
        while left > 0 && sig == Signal::Paused
            invariant
                self.wf(),
                sig == self@.status.signal(),
                self@.run(left as nat) == old(self)@.run(budget as nat),
            decreases left,
        {
            sig = self.step();
            left -= 1;
        }
        sig
    }

    /// Hands the machine the answer to its request.
    pub fn resume(&mut self, answer: Value)
        requires
            old(self).wf(),
        ensures
            final(self).wf(),
            final(self)@.wf(),
            final(self)@ == old(self)@.resume(answer@),
    {
        proof {
            self@.law_resume_keeps_frames_nested(answer@);
        }
        let fits = match &self.status {
            Status::Waiting(Request::Native { .. }) => true,
            Status::Waiting(Request::Float { op, .. }) => match op {
                Op::IsEqual => matches!(answer, Value::Bool(_)),
                _ => matches!(answer, Value::Float(_)),
            },
            _ => {
                return ;
            },
        };
        if fits {
            self.status = Status::Running;
            self.push_value(answer);
        } else {
            self.fail(RuntimeError::BadAnswer);
        }
    }
}

} // verus!

verus! {

impl<'a> VM<'a> {
    /// The state of the run.
    pub fn status(&self) -> (s: &Status)
        ensures
            s@ == self@.status,
    {
        &self.status
    }

    /// The request that the machine waits for an answer to.
    pub fn request(&self) -> (r: Option<&Request>)
        ensures
            match r {
                Some(r) => self@.status == StatusView::Waiting(r@),
                None => !(self@.status is Waiting),
            },
    {
        match &self.status {
            Status::Waiting(r) => Some(r),
            _ => None,
        }
    }

    /// The value that the run finished with.
    pub fn result(&self) -> (r: Option<&Value>)
        ensures
            match r {
                Some(v) => self@.status == StatusView::Finished(v@),
                None => !(self@.status is Finished),
            },
    {
        match &self.status {
            Status::Finished(v) => Some(v),
            _ => None,
        }
    }

    /// Why the run failed.
    pub fn error(&self) -> (r: Option<RuntimeError>)
        ensures
            match r {
                Some(e) => self@.status == StatusView::Failed(e),
                None => !(self@.status is Failed),
            },
    {
        match &self.status {
            Status::Failed(e) => Some(*e),
            _ => None,
        }
    }

    /// The value of the global variable `name`.
    pub fn global(&self, name: &String) -> (r: Option<&Value>)
        requires
            self.wf(),
        ensures
            match r {
                Some(v) => self@.globals.dom().contains(name@) && self@.globals[name@] == v@,
                None => !self@.globals.dom().contains(name@),
            },
    {
        self.globals.get(name)
    }

    /// The content of the cell `h`.
    pub fn cell(&self, h: usize) -> (r: Option<&Value>)
        ensures
            match r {
                Some(v) => h < self@.heap.len() && self@.heap[h as int] == v@,
                None => h >= self@.heap.len(),
            },
    {
        if h < self.heap.len() {
            Some(&self.heap[h])
        } else {
            None
        }
    }

    /// The height of the operand stack.
    pub fn stack_len(&self) -> (n: usize)
        ensures
            n == self@.stack.len(),
    {
        self.stack.len()
    }

    /// The number of frames.
    pub fn frame_count(&self) -> (n: usize)
        ensures
            n == self@.frames.len(),
    {
        self.frames.len()
    }

    /// Allows `cap` nested calls from now on.
    pub fn set_frame_cap(&mut self, cap: usize)
        requires
            old(self).wf(),
        ensures
            final(self).wf(),
            final(self)@.wf(),
            final(self)@ == (VMView { frame_cap: cap as nat, ..old(self)@ }),
    {
        self.frame_cap = cap;
    }

    /// Makes the machine ready to run `c` on an empty stack. The global
    /// variables and the cells stay as they are.
    pub fn load(&mut self, c: Closure)
        requires
            old(self).wf(),
        ensures
            final(self).wf(),
            final(self)@.wf(),
            final(self)@ == (VMView {
                frames: seq![FrameView { ip: 0, closure: c@, stack_start: 0 }],
                stack: Seq::empty(),
                status: StatusView::Running,
                ..old(self)@
            }),
    {
        self.frames.clear();
        self.frames.push(CallFrame::new(c, 0));
        self.stack.clear();
        self.status = Status::Running;
        proof {
            reveal(nested);
            assert(self@.frames =~= seq![FrameView { ip: 0, closure: c@, stack_start: 0 }]);
            assert(self@.stack =~= Seq::empty());
        }
    }
}

impl VMView {
    /// When the outermost frame returns, the run is over and the operand
    /// stack is empty.
    pub proof fn law_outermost_return_empties_stack(self)
        requires
            self.wf(),
            self.at(Op::Return),
            self.frames.len() == 1,
            !(self.step().status is Failed),
        ensures
            self.step().status is Finished,
            self.step().frames.len() == 0,
            self.step().stack.len() == 0,
    {
        Self::lemma_nested_pop(self.frames, self.stack.len() as int);
        self.lemma_base();
    }

    /// The frame that a call pushes starts within the stack: at the first
    /// of the arguments, which become its first slots.
    pub proof fn law_call_starts_frame_within_stack(self)
        requires
            self.wf(),
            self.at(Op::Call),
            self.step().frames.len() == self.frames.len() + 1,
        ensures
            self.step().frame().stack_start <= self.step().stack.len(),
            self.step().frame().stack_start == self.stack.len() - 1 - self.operand(),
            self.step().frame().stack_start >= self.base(),
            self.step().frame().ip == 0,
    {
        self.lemma_base();
    }

    /// A return cuts the stack down to where the frame that it pops
    /// started, and then puts the result there for the caller.
    pub proof fn law_return_cuts_stack_to_frame_start(self)
        requires
            self.wf(),
            self.at(Op::Return),
            self.frames.len() > 1,
            !(self.step().status is Failed),
        ensures
            self.step().frames == self.frames.drop_last(),
            self.step().stack.len() == self.base() + 1,
            self.step().stack.drop_last() == self.stack.subrange(0, self.base()),
            self.step().stack.last() == self.peek(0),
    {
        self.lemma_base();
        let below = self.stack.subrange(0, self.base());
        assert(below.push(self.peek(0)).drop_last() =~= below);
    }

    /// An assignment through a closure goes to the cell that the closure
    /// captured, and to no other. Whoever holds a reference to that cell,
    /// another closure in its list of captured cells or the frame that
    /// declared the variable in its slot, finds the new value there.
    pub proof fn law_upvalue_write_is_shared(self)
        requires
            self.wf(),
            self.at(Op::SetUpvalue),
            !(self.step().status is Failed),
        ensures
            ({
                let h = self.frame().closure.upvalues[self.operand()];
                let t = self.step();
                &&& t.resolve(ValueView::HeapedData(h)) == self.resolve(self.peek(0))
                &&& t.heap.len() == self.heap.len()
                &&& forall|other: int|
                    0 <= other < self.heap.len() && other != h ==> t.heap[other] == self.heap[other]
                &&& t.stack == self.stack
            }),
    {
    }

    /// An assignment to a local variable that a closure has captured goes
    /// to the cell that the slot refers to, where the closure finds it.
    pub proof fn law_captured_local_write_is_shared(self, h: usize)
        requires
            self.wf(),
            self.at(Op::SetLocal),
            !(self.step().status is Failed),
            self.stack[self.base() + self.operand()] == ValueView::HeapedData(h),
        ensures
            ({
                let t = self.step();
                &&& t.resolve(ValueView::HeapedData(h)) == self.resolve(self.peek(0))
                &&& t.stack[self.base() + self.operand()] == ValueView::HeapedData(h)
            }),
    {
        self.lemma_base();
    }

    /// Capturing a local variable leaves the slot with a reference to the
    /// cell that the closure gets, and the cell with the value that the
    /// variable had; a slot that refers to a cell already has that cell
    /// captured again.
    pub proof fn law_capture_shares_cell(self, index: u8, cells: Seq<usize>, own: Option<usize>)
        requires
            self.wf(),
            self.frames.len() > 0,
            self.base() + index < self.stack.len(),
            self.resolve(self.stack[self.base() + index]) is Some,
            self.heap.len() < usize::MAX,
        ensures
            ({
                let slot = self.base() + index;
                let c = self.capture(1, index, cells, own);
                &&& c.ok
                &&& c.cells == cells.push(c.cells.last())
                &&& c.vm.stack[slot] == ValueView::HeapedData(c.cells.last())
                &&& c.vm.resolve(c.vm.stack[slot]) == self.resolve(self.stack[slot])
                &&& self.stack[slot] is HeapedData ==> c.vm == self
            }),
    {
        self.lemma_base();
        let c = self.capture(1, index, cells, own);
        assert(c.cells =~= cells.push(c.cells.last()));
    }

    /// A conditional jump takes the boolean false and the integer zero for
    /// false, and nothing else.
    pub proof fn law_only_false_and_zero_are_falsey(self)
        requires
            self.wf(),
            self.at(Op::JumpIfFalse),
            !(self.step().status is Failed),
        ensures
            ({
                let c = self.resolve(self.peek(0))->0;
                let falsey = c == ValueView::Bool(false) || c == ValueView::Int(0);
                &&& falsey ==> self.step().ip() == self.ip() + self.wide_operand()
                &&& !falsey ==> self.step().ip() == self.ip() + 3
            }),
    {
    }
}

/// The promotion table of arithmetic. Two integers give an integer under
/// `Add`, `Subtract` and `Multiply`. As soon as one of two numbers is a
/// double the result is a double, and under `Divide` it always is: the host
/// is asked for it and only a double answers.
pub proof fn law_arithmetic_promotion(op: Op, x: ValueView, y: ValueView, answer: ValueView)
    requires
        op == Op::Add || op == Op::Subtract || op == Op::Multiply || op == Op::Divide,
        x is Int || x is Float,
        y is Int || y is Float,
    ensures
        x is Int && y is Int && op != Op::Divide ==> (arith_spec(op, x, y) matches OutcomeView::Push(
            r,
        ) ==> r == ValueView::Int(int_arith(op, x->Int_0, y->Int_0))),
        x is Int && y is Int && op != Op::Divide ==> !(arith_spec(op, x, y) is Ask),
        x is Float || y is Float || op == Op::Divide ==> !(arith_spec(op, x, y) is Push),
        arith_spec(op, x, y) matches OutcomeView::Ask(r) ==> (r.accepts(answer) <==> answer is Float),
        arith_spec(op, x, y) is Fail ==> (x is Int && y is Int && (op == Op::Divide ==> y
            == ValueView::Int(0))),
{
}

} // verus!

verus! {

impl<'a> VM<'a> {
    /// The operand stack, the bottom first.
    pub fn stack(&self) -> (s: &Vec<Value>)
        ensures
            values_view(s@) == self@.stack,
    {
        &self.stack
    }

    /// The closure that runs and the address of its next instruction, if
    /// a frame is left.
    pub fn position(&self) -> (r: Option<(&Closure, usize)>)
        ensures
            match r {
                Some((c, ip)) => self@.frames.len() > 0 && c@ == self@.frame().closure && ip
                    == self@.ip(),
                None => self@.frames.len() == 0,
            },
    {
        if self.frames.len() == 0 {
            None
        } else {
            let frame = &self.frames[self.frames.len() - 1];
            Some((&frame.closure, frame.ip))
        }
    }

    /// The index of the operand stack at which the frame that runs
    /// starts.
    pub fn stack_start(&self) -> (r: Option<usize>)
        ensures
            match r {
                Some(s) => self@.frames.len() > 0 && s == self@.base(),
                None => self@.frames.len() == 0,
            },
    {
        if self.frames.len() == 0 {
            None
        } else {
            Some(self.frames[self.frames.len() - 1].stack_start)
        }
    }

    /// What `v` stands for: the content of the cell if `v` is a reference
    /// to a cell, `v` itself if not.
    pub fn resolve<'b>(&'b self, v: &'b Value) -> (r: Option<&'b Value>)
        ensures
            match r {
                Some(x) => self@.resolve(v@) == Some(x@),
                None => self@.resolve(v@) is None,
            },
    {
        match v {
            Value::HeapedData(h) => if *h < self.heap.len() {
                Some(&self.heap[*h])
            } else {
                None
            },
            _ => Some(v),
        }
    }
}

} // verus!
