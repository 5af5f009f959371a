//! The single-pass compiler. It walks a `Core` tree once and emits
//! bytecode into the chunk of the function at hand. Every name becomes a
//! local slot, a captured variable or a global; `if` and `loop` become
//! jumps, which are emitted without a target and given one as soon as it
//! is known.

use crate::common::{Chunk, ChunkView, Core, CoreView, Op};
use crate::value::{Function, FunctionView, Value, ValueView};
use vstd::prelude::*;

verus! {

/// Where a function finds a variable that it captures: in a slot of the
/// function around it, or among the variables that that function has
/// captured itself.
#[derive(Debug, Clone, Copy, PartialEq, Eq, Structural)]
pub enum Upvalue {
    Local(usize),
    NonLocal(usize),
}

/// Why a tree does not compile.
#[derive(Debug, Clone, Copy, PartialEq, Eq, Structural)]
pub enum CompileError {
    /// An assignment to a name that nothing has declared.
    UndefinedVariable,
    /// `break` with no loop around it in its function.
    BreakOutsideLoop,
    /// `continue` with no loop around it in its function.
    ContinueOutsideLoop,
    /// More than 256 constants in one function.
    TooManyConstants,
    /// More than 256 local variables in one function.
    TooManyLocals,
    /// More than 256 captured variables in one function.
    TooManyUpvalues,
    /// More than 255 arguments in one call.
    TooManyArguments,
    /// A jump over more than 65,535 bytes, or to an address beyond them.
    JumpTooFar,
    /// Scopes nested deeper than can be counted.
    TooDeep,
}

/// A local variable: its name, the depth of the scope that declared it,
/// and whether a function within has captured it.
#[derive(Debug)]
pub struct Local {
    pub name: String,
    pub depth: usize,
    pub captured: bool,
}

/// The mathematical model of a [`Local`].
pub struct LocalView {
    pub name: Seq<char>,
    pub depth: nat,
    pub captured: bool,
}

impl View for Local {
    type V = LocalView;

    open spec fn view(&self) -> LocalView {
        LocalView { name: self.name@, depth: self.depth as nat, captured: self.captured }
    }
}

/// What the compiler knows of one function while it compiles it.
#[derive(Debug)]
pub struct CCtx {
    pub function: Function,
    locals: Vec<Local>,
    upvalues: Vec<Upvalue>,
    scope_depth: usize,
    continues: Vec<Vec<usize>>,
    breaks: Vec<Vec<usize>>,
}

/// The mathematical model of a [`CCtx`].
pub struct CCtxView {
    pub function: FunctionView,
    pub locals: Seq<LocalView>,
    pub upvalues: Seq<Upvalue>,
    pub scope_depth: nat,
    /// For each loop around the place at hand, the jumps that `continue`
    /// emitted in it and that wait for their target.
    pub continues: Seq<Seq<usize>>,
    /// The same for `break`.
    pub breaks: Seq<Seq<usize>>,
}

/// The models of a sequence of locals, element by element.
pub open spec fn locals_view(s: Seq<Local>) -> Seq<LocalView> {
    Seq::new(s.len(), |i: int| s[i]@)
}

/// The models of a sequence of lists, element by element.
pub open spec fn lists_view(s: Seq<Vec<usize>>) -> Seq<Seq<usize>> {
    Seq::new(s.len(), |i: int| s[i]@)
}

impl View for CCtx {
    type V = CCtxView;

    closed spec fn view(&self) -> CCtxView {
        CCtxView {
            function: self.function@,
            locals: locals_view(self.locals@),
            upvalues: self.upvalues@,
            scope_depth: self.scope_depth as nat,
            continues: lists_view(self.continues@),
            breaks: lists_view(self.breaks@),
        }
    }
}

/// The high byte of a 16-bit number.
pub open spec fn hi(n: nat) -> u8 {
    (n / 256) as u8
}

/// The low byte of a 16-bit number.
pub open spec fn lo(n: nat) -> u8 {
    (n % 256) as u8
}

/// The byte that tells the machine where to capture from.
pub open spec fn capture_flag(up: Upvalue) -> u8 {
    match up {
        Upvalue::Local(_) => 1,
        Upvalue::NonLocal(_) => 0,
    }
}

/// The index that a descriptor holds.
pub open spec fn capture_index(up: Upvalue) -> usize {
    match up {
        Upvalue::Local(i) => i,
        Upvalue::NonLocal(i) => i,
    }
}

/// The bytes that follow a `MakeClosure` for the first `n` of `ups`: for
/// each a flag and an index.
pub open spec fn capture_bytes(ups: Seq<Upvalue>, n: nat) -> Seq<u8>
    decreases n,
{
    if n == 0 {
        Seq::empty()
    } else {
        capture_bytes(ups, (n - 1) as nat).push(capture_flag(ups[n - 1])).push(
            capture_index(ups[n - 1]) as u8,
        )
    }
}

/// The opcode that stands for a call of `name`, if `name` is one of the
/// five operators that the compiler knows.
pub open spec fn intrinsic_spec(name: Seq<char>) -> Option<Op> {
    if name == seq!['=', '='] {
        Some(Op::IsEqual)
    } else if name == seq!['+'] {
        Some(Op::Add)
    } else if name == seq!['-'] {
        Some(Op::Subtract)
    } else if name == seq!['*'] {
        Some(Op::Multiply)
    } else if name == seq!['/'] {
        Some(Op::Divide)
    } else {
        None
    }
}

/// The opcode that a call of `callee` compiles to without a call, if
/// `callee` is the name of one of the five operators.
pub open spec fn try_arithmetic_op_spec(callee: CoreView) -> Option<Op> {
    match callee {
        CoreView::Get(name) => intrinsic_spec(name),
        _ => None,
    }
}

/// The addresses in the lists of `lists`.
pub open spec fn sites(lists: Seq<Seq<usize>>) -> Set<int> {
    Set::new(
        |p: int|
            exists|k: int, i: int|
                0 <= k < lists.len() && 0 <= i < lists[k].len() && #[trigger] lists[k][i] == p,
    )
}

impl CCtxView {
    /// The state for a function of which nothing is compiled yet.
    pub open spec fn fresh() -> CCtxView {
        CCtxView {
            function: FunctionView {
                arity: 0,
                upvalue_count: 0,
                chunk: ChunkView { code: Seq::empty(), constants: Seq::empty() },
            },
            locals: Seq::empty(),
            upvalues: Seq::empty(),
            scope_depth: 0,
            continues: Seq::empty(),
            breaks: Seq::empty(),
        }
    }

/// The chunk of the function.
    pub open spec fn chunk(self) -> ChunkView {
        self.function.chunk
    }

    /// The address that the next instruction gets.
    pub open spec fn here(self) -> nat {
        self.function.chunk.code.len()
    }

    /// The state with `chunk` for the chunk of the function.
    pub open spec fn with_chunk(self, chunk: ChunkView) -> CCtxView {
        CCtxView { function: FunctionView { chunk, ..self.function }, ..self }
    }

    /// The state with `bytes` behind the code.
    pub open spec fn emit(self, bytes: Seq<u8>) -> CCtxView {
        self.with_chunk(self.chunk().append(bytes))
    }

    /// The state with `value` as the 16-bit operand at `at`.
    pub open spec fn patch(self, at: int, value: nat) -> CCtxView {
        self.with_chunk(self.chunk().with_double(at, value))
    }

    /// The last of the first `n` locals with the name `name`.
    pub open spec fn find_local(self, name: Seq<char>, n: nat) -> Option<nat>
        decreases n,
    {
        if n == 0 {
            None
        } else if self.locals[n - 1].name == name {
            Some((n - 1) as nat)
        } else {
            self.find_local(name, (n - 1) as nat)
        }
    }

    /// The slot of the local variable `name`: of the one declared last,
    /// where several have the name.
    pub open spec fn resolve_local(self, name: Seq<char>) -> Option<nat> {
        self.find_local(name, self.locals.len())
    }

    /// The first constant from `from` on that is the string `name`.
    pub open spec fn find_global(self, name: Seq<char>, from: nat) -> Option<nat>
        decreases self.chunk().constants.len() - from,
    {
        if from >= self.chunk().constants.len() {
            None
        } else if self.chunk().constants[from as int] == ValueView::Str(name) {
            Some(from)
        } else {
            self.find_global(name, from + 1)
        }
    }

    /// The constant that names the global variable `name`, if one does.
    pub open spec fn resolve_global(self, name: Seq<char>) -> Option<nat> {
        self.find_global(name, 0)
    }

    /// The first descriptor from `from` on that equals `up`.
    pub open spec fn find_upvalue(self, up: Upvalue, from: nat) -> Option<nat>
        decreases self.upvalues.len() - from,
    {
        if from >= self.upvalues.len() {
            None
        } else if self.upvalues[from as int] == up {
            Some(from)
        } else {
            self.find_upvalue(up, from + 1)
        }
    }

    /// The state in which `up` is registered, and its index. A descriptor
    /// that is registered already keeps its index.
    pub open spec fn add_upvalue(self, up: Upvalue) -> (CCtxView, nat) {
        match self.find_upvalue(up, 0) {
            Some(i) => (self, i),
            None => (
                CCtxView {
                    function: FunctionView {
                        upvalue_count: self.function.upvalue_count + 1,
                        ..self.function
                    },
                    upvalues: self.upvalues.push(up),
                    ..self
                },
                self.upvalues.len(),
            ),
        }
    }

    /// The state after the locals of the scopes deeper than the scope at
    /// hand have gone, a `Pop` emitted for each.
    pub open spec fn pop_locals(self) -> CCtxView
        decreases self.locals.len(),
    {
        if self.locals.len() > 0 && self.locals.last().depth > self.scope_depth {
            CCtxView { locals: self.locals.drop_last(), ..self }.emit(
                seq![Op::Pop.byte()],
            ).pop_locals()
        } else {
            self
        }
    }

    /// The jumps that `break` and `continue` have emitted and that wait
    /// for their target.
    pub open spec fn pending(self) -> Set<int> {
        sites(self.continues) + sites(self.breaks)
    }

    /// The tables are within the bounds that one-byte operands set.
    pub open spec fn bounded(self) -> bool {
        &&& self.locals.len() <= 256
        &&& self.upvalues.len() <= 256
        &&& self.function.upvalue_count == self.upvalues.len()
        &&& forall|i: int|
            0 <= i < self.upvalues.len() ==> capture_index(#[trigger] self.upvalues[i]) <= 255
        &&& self.chunk().constants.len() <= 256
        &&& self.continues.len() == self.breaks.len()
    }
}

/// The mathematical model of a [`Compiler`]: the states of the functions
/// that it is in, the innermost last.
pub struct CompilerView {
    pub ctxs: Seq<CCtxView>,
}

/// What a step of the compiler gives: the next state, or the reason why
/// there is none.
pub type Compiled = Result<CompilerView, CompileError>;

impl CompilerView {
    /// The state of the function at hand.
    pub open spec fn cur(self) -> CCtxView {
        self.ctxs.last()
    }

    /// The state with `ctx` for the state of the function `i`.
    pub open spec fn with_ctx(self, i: int, ctx: CCtxView) -> CompilerView {
        CompilerView { ctxs: self.ctxs.update(i, ctx) }
    }

    /// The state with `ctx` for the state of the function at hand.
    pub open spec fn with_cur(self, ctx: CCtxView) -> CompilerView {
        self.with_ctx(self.ctxs.len() - 1, ctx)
    }

/// The address that the next instruction of the function at hand gets.
    pub open spec fn here(self) -> nat {
        self.cur().here()
    }

    /// The state with `bytes` behind the code of the function at hand.
    pub open spec fn emit(self, bytes: Seq<u8>) -> CompilerView {
        self.with_cur(self.cur().emit(bytes))
    }

    /// The state with `v` in the pool, and the index of `v`.
    pub open spec fn add_constant(self, v: ValueView) -> Result<(CompilerView, u8), CompileError> {
        let n = self.cur().chunk().constants.len();
        if n >= 256 {
            Err(CompileError::TooManyConstants)
        } else {
            Ok((self.with_cur(self.cur().with_chunk(self.cur().chunk().with_constant(v))), n as u8))
        }
    }

    /// The state after `op` with a new constant `v` as its operand.
    pub open spec fn emit_with_constant(self, op: Op, v: ValueView) -> Compiled {
        match self.add_constant(v) {
            Ok((s, k)) => Ok(s.emit(seq![op.byte(), k])),
            Err(e) => Err(e),
        }
    }

    /// The state in which the function `i` has `up` registered.
    pub open spec fn register(self, i: int, up: Upvalue) -> Result<
        (CompilerView, Option<nat>),
        CompileError,
    > {
        let (ctx, k) = self.ctxs[i].add_upvalue(up);
        if k > 255 {
            Err(CompileError::TooManyUpvalues)
        } else {
            Ok((self.with_ctx(i, ctx), Some(k)))
        }
    }

    /// Resolves `name` as a variable that the function `i` captures. A
    /// local of the function around it is marked as captured; a variable
    /// that that function captures itself is captured from there.
    pub open spec fn resolve_upvalue(self, name: Seq<char>, i: nat) -> Result<
        (CompilerView, Option<nat>),
        CompileError,
    >
        decreases i,
    {
        if i == 0 || i >= self.ctxs.len() {
            Ok((self, None))
        } else {
            let below = self.ctxs[i - 1];
            match below.resolve_local(name) {
                Some(idx) => self.with_ctx(
                    i - 1,
                    CCtxView {
                        locals: below.locals.update(
                            idx as int,
                            LocalView { captured: true, ..below.locals[idx as int] },
                        ),
                        ..below
                    },
                ).register(i as int, Upvalue::Local(idx as usize)),
                None => match self.resolve_upvalue(name, (i - 1) as nat) {
                    Err(e) => Err(e),
                    Ok((s, None)) => Ok((s, None)),
                    Ok((s, Some(j))) => s.register(i as int, Upvalue::NonLocal(j as usize)),
                },
            }
        }
    }

    /// A read of the variable `name`: of a local, else of a captured
    /// variable, else of a global.
    pub open spec fn get(self, name: Seq<char>) -> Compiled {
        match self.cur().resolve_local(name) {
            Some(i) => Ok(self.emit(seq![Op::GetLocal.byte(), i as u8])),
            None => match self.resolve_upvalue(name, (self.ctxs.len() - 1) as nat) {
                Err(e) => Err(e),
                Ok((s, Some(j))) => Ok(s.emit(seq![Op::GetUpvalue.byte(), j as u8])),
                Ok((s, None)) => s.emit_with_constant(Op::GetGlobal, ValueView::Str(name)),
            },
        }
    }

    /// An assignment to the variable `name` of the value on the stack. A
    /// global must have a constant of its name in the pool already.
    pub open spec fn assign(self, name: Seq<char>) -> Compiled {
        match self.cur().resolve_local(name) {
            Some(i) => Ok(self.emit(seq![Op::SetLocal.byte(), i as u8])),
            None => match self.resolve_upvalue(name, (self.ctxs.len() - 1) as nat) {
                Err(e) => Err(e),
                Ok((s, Some(j))) => Ok(s.emit(seq![Op::SetUpvalue.byte(), j as u8])),
                Ok((s, None)) => match s.cur().resolve_global(name) {
                    Some(k) => Ok(s.emit(seq![Op::SetGlobal.byte(), k as u8])),
                    None => Err(CompileError::UndefinedVariable),
                },
            },
        }
    }

    /// Within a scope, `name` becomes the next local; at the top of the
    /// program there is nothing to declare.
    pub open spec fn declare(self, name: Seq<char>) -> Compiled {
        let c = self.cur();
        if c.scope_depth == 0 {
            Ok(self)
        } else if c.locals.len() >= 256 {
            Err(CompileError::TooManyLocals)
        } else {
            Ok(
                self.with_cur(
                    CCtxView {
                        locals: c.locals.push(
                            LocalView { name, depth: c.scope_depth, captured: false },
                        ),
                        ..c
                    },
                ),
            )
        }
    }

    /// At the top of the program the value on the stack goes to the
    /// global `name`; within a scope it stays where it is, as the local.
    pub open spec fn define(self, name: Seq<char>) -> Compiled {
        if self.cur().scope_depth == 0 {
            self.emit_with_constant(Op::SetGlobal, ValueView::Str(name))
        } else {
            Ok(self)
        }
    }

    /// The state one scope deeper.
    pub open spec fn begin_scope(self) -> Compiled {
        let c = self.cur();
        if c.scope_depth >= usize::MAX {
            Err(CompileError::TooDeep)
        } else {
            Ok(self.with_cur(CCtxView { scope_depth: c.scope_depth + 1, ..c }))
        }
    }

    /// The state after the scope at hand has ended: its locals are gone, a
    /// `Pop` emitted for each.
    pub open spec fn end_scope(self) -> CompilerView {
        let c = self.cur();
        self.with_cur(CCtxView { scope_depth: (c.scope_depth - 1) as nat, ..c }.pop_locals())
    }

    /// The state after a jump `op` that waits for its target.
    pub open spec fn emit_jump(self, op: Op) -> CompilerView {
        self.emit(seq![op.byte(), 0xff, 0xff])
    }

    /// The state in which the relative jump at `at` goes to the address
    /// at hand.
    pub open spec fn land(self, at: nat) -> Compiled {
        let distance = self.here() - at;
        if distance > 0xffff {
            Err(CompileError::JumpTooFar)
        } else {
            Ok(self.with_cur(self.cur().patch(at as int + 1, distance as nat)))
        }
    }

    /// The state at the start of a loop: no `break` and no `continue` of it
    /// waits yet.
    pub open spec fn enter_loop(self) -> CompilerView {
        let c = self.cur();
        self.with_cur(
            CCtxView {
                continues: c.continues.push(Seq::empty()),
                breaks: c.breaks.push(Seq::empty()),
                ..c
            },
        )
    }

    /// The end of a loop that began at `start`: a jump back to `start`,
    /// and every `continue` of the loop goes to `start`, every `break` to
    /// the address behind the jump back.
    pub open spec fn leave_loop(self, start: nat) -> Compiled {
        let exit = self.here() + 3;
        let c = self.cur();
        if exit > 0xffff || c.continues.len() == 0 || c.breaks.len() == 0 {
            Err(CompileError::JumpTooFar)
        } else {
            let back = c.emit(seq![Op::AbsJump.byte(), hi(start), lo(start)]);
            let patched = back.with_chunk(
                back.chunk().patch_all(c.continues.last(), 0, start).patch_all(
                    c.breaks.last(),
                    0,
                    exit as nat,
                ),
            );
            Ok(
                self.with_cur(
                    CCtxView {
                        continues: c.continues.drop_last(),
                        breaks: c.breaks.drop_last(),
                        ..patched
                    },
                ),
            )
        }
    }

    /// `continue` or `break`: a jump that waits for the end of the
    /// innermost loop.
    pub open spec fn jump_out(self, again: bool) -> Compiled {
        let c = self.cur();
        let lists = if again {
            c.continues
        } else {
            c.breaks
        };
        if lists.len() == 0 {
            Err(
                if again {
                    CompileError::ContinueOutsideLoop
                } else {
                    CompileError::BreakOutsideLoop
                },
            )
        } else {
            let site = c.here() as usize;
            let jumped = c.emit(seq![Op::AbsJump.byte(), 0xff, 0xff]);
            let more = lists.update(lists.len() - 1, lists.last().push(site));
            Ok(
                self.with_cur(
                    if again {
                        CCtxView { continues: more, ..jumped }
                    } else {
                        CCtxView { breaks: more, ..jumped }
                    },
                ),
            )
        }
    }

    /// The state at the start of a function with the parameters `params`:
    /// a new function state in its first scope, the parameters its first
    /// locals.
    pub open spec fn enter_function(self, params: Seq<Seq<char>>) -> Compiled {
        if params.len() > 256 {
            Err(CompileError::TooManyLocals)
        } else {
            let f = CCtxView::fresh();
            Ok(
                CompilerView {
                    ctxs: self.ctxs.push(
                        CCtxView {
                            function: FunctionView { arity: params.len(), ..f.function },
                            locals: Seq::new(
                                params.len(),
                                |i: int| LocalView { name: params[i], depth: 1, captured: false },
                            ),
                            scope_depth: 1,
                            ..f
                        },
                    ),
                },
            )
        }
    }

    /// The end of every function: it returns nothing if control comes
    /// this far.
    pub open spec fn seal(self) -> Compiled {
        match self.emit_with_constant(Op::LoadConstant, ValueView::Nil) {
            Ok(s) => Ok(s.emit(seq![Op::Return.byte()])),
            Err(e) => Err(e),
        }
    }

    /// The state after a function is finished: back in the function
    /// around it, which has the finished function as a constant and makes
    /// a closure of it, capturing what the function asks for.
    pub open spec fn leave_function(self) -> Compiled {
        let sub = self.cur();
        let parent = CompilerView { ctxs: self.ctxs.drop_last() };
        match parent.add_constant(ValueView::Function(sub.function)) {
            Err(e) => Err(e),
            Ok((s, k)) => Ok(
                s.emit(
                    seq![Op::MakeClosure.byte(), k] + capture_bytes(
                        sub.upvalues,
                        sub.upvalues.len(),
                    ),
                ),
            ),
        }
    }

    /// What compiling `e` makes of this state.
    pub open spec fn compile(self, e: CoreView) -> Compiled
        decreases e, 0nat,
    {
        match e {
            CoreView::Lit(v) => self.emit_with_constant(Op::LoadConstant, v),
            CoreView::Get(name) => self.get(name),
            CoreView::Assign(name, value) => match self.compile(*value) {
                Ok(s) => s.assign(name),
                Err(e) => Err(e),
            },
            CoreView::Let(name, value) => match self.declare(name) {
                Ok(s) => match s.compile(*value) {
                    Ok(t) => t.define(name),
                    Err(e) => Err(e),
                },
                Err(e) => Err(e),
            },
            CoreView::Return(x) => match self.compile(*x) {
                Ok(s) => Ok(s.emit(seq![Op::Return.byte()])),
                Err(e) => Err(e),
            },
            CoreView::Block(xs) => match self.begin_scope() {
                Ok(s) => match s.compile_all(xs, 0) {
                    Ok(t) => Ok(t.end_scope()),
                    Err(e) => Err(e),
                },
                Err(e) => Err(e),
            },
            CoreView::Call(callee, args) => match self.compile_all(args, 0) {
                Ok(s) => match try_arithmetic_op_spec(*callee) {
                    Some(op) => Ok(s.emit(seq![op.byte()])),
                    None => match s.compile(*callee) {
                        Ok(t) => if args.len() > 255 {
                            Err(CompileError::TooManyArguments)
                        } else {
                            Ok(t.emit(seq![Op::Call.byte(), args.len() as u8]))
                        },
                        Err(e) => Err(e),
                    },
                },
                Err(e) => Err(e),
            },
            CoreView::If(c, t, e) => match self.compile(*c) {
                Err(e) => Err(e),
                Ok(s1) => match s1.emit_jump(Op::JumpIfFalse).compile(*t) {
                    Err(e) => Err(e),
                    Ok(s2) => match s2.emit_jump(Op::Jump).land(s1.here()) {
                        Err(e) => Err(e),
                        Ok(s3) => match s3.compile(*e) {
                            Err(e) => Err(e),
                            Ok(s4) => s4.land(s2.here()),
                        },
                    },
                },
            },
            CoreView::Loop(body) => match self.enter_loop().compile(*body) {
                Err(e) => Err(e),
                Ok(s) => s.leave_loop(self.here()),
            },
            CoreView::Continue => self.jump_out(true),
            CoreView::Break => self.jump_out(false),
            CoreView::Lambda(params, body) => match self.enter_function(params) {
                Err(e) => Err(e),
                Ok(s1) => match s1.compile(*body) {
                    Err(e) => Err(e),
                    Ok(s2) => match s2.seal() {
                        Err(e) => Err(e),
                        Ok(s3) => s3.leave_function(),
                    },
                },
            },
        }
    }

    /// What compiling `xs[i ..]`, one after the other, makes of this
    /// state.
    pub open spec fn compile_all(self, xs: Seq<CoreView>, i: int) -> Compiled
        decreases xs, xs.len() - i,
    {
        if i < 0 || i >= xs.len() {
            Ok(self)
        } else {
            match self.compile(xs[i]) {
                Ok(s) => s.compile_all(xs, i + 1),
                Err(e) => Err(e),
            }
        }
    }
}

} // verus!

verus! {

impl CCtxView {
    /// The jumps that wait for the end of a loop are absolute.
    pub open spec fn absolute(self) -> bool {
        forall|p: int| #[trigger]
            self.pending().contains(p) ==> self.chunk().code[p] == Op::AbsJump.byte()
    }

    /// Code that grows keeps the jumps that wait for the end of a loop
    /// absolute.
    pub(crate) proof fn lemma_absolute(self, old: CCtxView, all: Set<int>)
        requires
            old.absolute(),
            old.chunk().tidy(all),
            old.pending().subset_of(all),
            old.chunk().grows_to(self.chunk()),
            self.pending().subset_of(old.pending()),
        ensures
            self.absolute(),
    {
        assert forall|p: int| #[trigger] self.pending().contains(p) implies self.chunk().code[p]
            == Op::AbsJump.byte() by {
            assert(old.pending().contains(p));
            old.chunk().lemma_tidy_open(all, p);
            old.chunk().lemma_grows_start(self.chunk(), p);
        }
    }

    /// What the compilation of an inner function may change of a function
    /// around it: which locals are captured and which variables it
    /// captures itself, but not its code, its scope or its loops.
    pub open spec fn kept_from(self, old: CCtxView) -> bool {
        &&& self.function.chunk == old.function.chunk
        &&& self.function.arity == old.function.arity
        &&& self.continues == old.continues
        &&& self.breaks == old.breaks
        &&& self.scope_depth == old.scope_depth
        &&& self.locals.len() == old.locals.len()
    }
}

impl CompilerView {
    /// The state is in order but for the jumps at `open`, which wait for
    /// their target: there is a function at hand, the tables of every
    /// function are within bounds, and the code of the function at hand
    /// is in order but for the jumps at `open` and those that wait for the
    /// end of a loop.
    pub open spec fn inv(self, open: Set<int>) -> bool {
        &&& self.ctxs.len() >= 1
        &&& forall|i: int| 0 <= i < self.ctxs.len() ==> (#[trigger] self.ctxs[i]).bounded()
        &&& self.cur().chunk().tidy(open + self.cur().pending())
        &&& self.cur().absolute()
    }

    /// This state is `old` after the compilation of something: in the
    /// same function, whose chunk has grown and whose constants have kept
    /// their indices, in the same scope and the same loops; the functions
    /// around have their code as it was.
    pub open spec fn follows(self, old: CompilerView) -> bool {
        &&& self.extends(old)
        &&& self.cur().scope_depth == old.cur().scope_depth
        &&& self.cur().continues.len() == old.cur().continues.len()
        &&& self.cur().breaks.len() == old.cur().breaks.len()
    }

    /// As `follows`, but the scope and the loops may be others.
    pub open spec fn extends(self, old: CompilerView) -> bool {
        &&& self.ctxs.len() == old.ctxs.len()
        &&& forall|i: int|
            0 <= i < old.ctxs.len() - 1 ==> (#[trigger] self.ctxs[i]).kept_from(old.ctxs[i])
        &&& old.cur().chunk().grows_to(self.cur().chunk())
        &&& self.cur().function.arity == old.cur().function.arity
    }

    pub(crate) proof fn lemma_follows_refl(self)
        ensures
            self.follows(self),
    {
        self.cur().chunk().lemma_grows_refl();
    }

    pub(crate) proof fn lemma_extends_trans(self, mid: CompilerView, old: CompilerView)
        requires
            mid.extends(old),
            self.extends(mid),
        ensures
            self.extends(old),
    {
        old.cur().chunk().lemma_grows_trans(mid.cur().chunk(), self.cur().chunk());
        assert forall|i: int| 0 <= i < old.ctxs.len() - 1 implies (#[trigger] self.ctxs[i]).kept_from(
            old.ctxs[i],
        ) by {
            assert(mid.ctxs[i].kept_from(old.ctxs[i]));
        }
    }

    pub(crate) proof fn lemma_follows_trans(self, mid: CompilerView, old: CompilerView)
        requires
            mid.follows(old),
            self.follows(mid),
        ensures
            self.follows(old),
    {
        old.cur().chunk().lemma_grows_trans(mid.cur().chunk(), self.cur().chunk());
        assert forall|i: int| 0 <= i < old.ctxs.len() - 1 implies (#[trigger] self.ctxs[i]).kept_from(
            old.ctxs[i],
        ) by {
            assert(mid.ctxs[i].kept_from(old.ctxs[i]));
        }
    }
}

impl ChunkView {
    /// An opcode with its fixed operands is one instruction, and a jump
    /// only if the opcode is one.
    pub(crate) proof fn lemma_takes(self, op: Op, bytes: Seq<u8>)
        requires
            bytes.len() == op.spec_width(),
            bytes[0] == op.byte(),
            op != Op::MakeClosure,
        ensures
            self.takes(bytes),
            self.append(bytes).is_jump(self.code.len() as int) == (op == Op::JumpIfFalse || op
                == Op::Jump || op == Op::AbsJump),
            op == Op::AbsJump ==> self.append(bytes).target(self.code.len() as int) == (
            bytes[1] as int) * 256 + bytes[2] as int,
    {
        op.lemma_codec();
        let c = self.append(bytes);
        assert(c.code[self.code.len() as int] == bytes[0]);
        if op == Op::AbsJump {
            assert(c.code[self.code.len() as int + 1] == bytes[1]);
            assert(c.code[self.code.len() as int + 2] == bytes[2]);
        }
    }
}

/// The single-pass compiler: the states of the functions that it is in,
/// the function at hand last.
#[derive(Debug)]
pub struct Compiler {
    pub ctxs: Vec<CCtx>,
}

/// The models of a sequence of function states, element by element.
pub open spec fn ctxs_view(s: Seq<CCtx>) -> Seq<CCtxView> {
    Seq::new(s.len(), |i: int| s[i]@)
}

impl View for Compiler {
    type V = CompilerView;

    open spec fn view(&self) -> CompilerView {
        CompilerView { ctxs: ctxs_view(self.ctxs@) }
    }
}

impl CCtx {
    /// The state for a function of which nothing is compiled yet.
    pub fn new() -> (c: CCtx)
        ensures
            c@ == CCtxView::fresh(),
    {
        CCtx::blank()
    }

    fn blank() -> (c: CCtx)
        ensures
            c@ == CCtxView::fresh(),
            c.function@ == CCtxView::fresh().function,
            c.locals@ == Seq::<Local>::empty(),
            c.upvalues@ == Seq::<Upvalue>::empty(),
            c.scope_depth == 0,
            c.continues@ == Seq::<Vec<usize>>::empty(),
            c.breaks@ == Seq::<Vec<usize>>::empty(),
    {
        let c = CCtx {
            function: Function::new(0, 0, Chunk::new(Vec::new(), Vec::new())),
            locals: Vec::new(),
            upvalues: Vec::new(),
            scope_depth: 0,
            continues: Vec::new(),
            breaks: Vec::new(),
        };
        assert(c@.function.chunk.constants =~= Seq::empty());
        assert(c@.locals =~= Seq::empty());
        assert(c@.continues =~= Seq::empty());
        assert(c@.breaks =~= Seq::empty());
        c
    }
}

impl Compiler {
    /// The compiler is in order and between two expressions of the
    /// program: it is in the outermost function and in no loop, and no
    /// jump waits for its target.
    pub open spec fn wf(&self) -> bool {
        self@.at_rest()
    }

    /// A compiler at the top of an empty program.
    pub fn new() -> (c: Compiler)
        ensures
            c@ == (CompilerView { ctxs: seq![CCtxView::fresh()] }),
            c.wf(),
            c@.pools_sealed(),
    {
        let mut ctxs: Vec<CCtx> = Vec::new();
        ctxs.push(CCtx::new());
        let c = Compiler { ctxs };
        proof {
            assert(c@.ctxs =~= seq![CCtxView::fresh()]);
            c@.cur().chunk().lemma_tidy_empty();
            assert(c@.cur().pending() =~= Set::empty());
            assert(Set::<int>::empty() + c@.cur().pending() =~= Set::empty());
            reveal(CompilerView::pools_sealed);
        }
        c
    }

    fn emit(&mut self, bytes: Vec<u8>, Ghost(open): Ghost<Set<int>>)
        requires
            old(self)@.inv(open),
            old(self)@.cur().chunk().takes(bytes@),
            !old(self)@.cur().chunk().append(bytes@).is_jump(old(self)@.here() as int)
                || old(self)@.cur().chunk().is_start(
                old(self)@.cur().chunk().append(bytes@).target(old(self)@.here() as int),
            ),
        ensures
            final(self)@ == old(self)@.emit(bytes@),
            final(self)@.inv(open),
            final(self)@.follows(old(self)@),
            final(self)@.keeps_pools(old(self)@),
    {
        let cur = self.ctxs.len() - 1;
        let ghost emitted = bytes@;
        let mut bytes = bytes;
        proof {
            let c = self@.cur();
            c.chunk().lemma_tidy_append(open + c.pending(), emitted);
        }
        self.ctxs[cur].function.chunk.code.append(&mut bytes);
        proof {
            assert(self@.ctxs =~= old(self)@.emit(emitted).ctxs);
            let c = old(self)@.cur();
            self@.cur().lemma_absolute(c, open + c.pending());
            self@.lemma_pools_same(old(self)@);
        }
    }

    /// Emits the jump `op` without a target and returns its address.
    fn emit_jump(&mut self, op: Op, Ghost(open): Ghost<Set<int>>) -> (site: usize)
        requires
            old(self)@.inv(open),
            op == Op::JumpIfFalse || op == Op::Jump || op == Op::AbsJump,
        ensures
            site == old(self)@.here(),
            final(self)@ == old(self)@.emit_jump(op),
            final(self)@.inv(open.insert(site as int)),
            final(self)@.follows(old(self)@),
            final(self)@.keeps_pools(old(self)@),
    {
        let cur = self.ctxs.len() - 1;
        let site = self.ctxs[cur].function.chunk.code.len();
        let mut bytes = vec![op.to_u8(), 0xffu8, 0xffu8];
        let ghost emitted = bytes@;
        proof {
            let c = self@.cur();
            assert(emitted =~= seq![op.byte(), 0xffu8, 0xffu8]);
            c.chunk().lemma_takes(op, emitted);
            c.chunk().lemma_tidy_append(open + c.pending(), emitted);
            assert((open + c.pending()).insert(site as int) =~= open.insert(site as int)
                + c.pending());
        }
        self.ctxs[cur].function.chunk.code.append(&mut bytes);
        proof {
            assert(self@.ctxs =~= old(self)@.emit_jump(op).ctxs);
            let c = old(self)@.cur();
            self@.cur().lemma_absolute(c, open + c.pending());
            self@.lemma_pools_same(old(self)@);
        }
        site
    }
}

} // verus!

verus! {

impl CompilerView {
    /// The state between two expressions of the program: in the outermost
    /// function and in no loop, and no jump waits for its target.
    pub open spec fn at_rest(self) -> bool {
        &&& self.inv(Set::empty())
        &&& self.ctxs.len() == 1
        &&& self.cur().continues.len() == 0
        &&& self.cur().breaks.len() == 0
        &&& self.cur().function.arity == 0
    }

    /// This state is `old` after names have been resolved: functions may
    /// have more locals marked as captured and more captured variables
    /// registered, and nothing else has changed.
    pub open spec fn relabels(self, old: CompilerView) -> bool {
        &&& self.ctxs.len() == old.ctxs.len()
        &&& forall|i: int|
            0 <= i < old.ctxs.len() ==> (#[trigger] self.ctxs[i]).kept_from(old.ctxs[i])
    }

    pub(crate) proof fn lemma_relabels(self, old: CompilerView, open: Set<int>)
        requires
            self.relabels(old),
            old.inv(open),
            forall|i: int| 0 <= i < self.ctxs.len() ==> (#[trigger] self.ctxs[i]).bounded(),
        ensures
            self.inv(open),
            self.follows(old),
    {
        assert(self.cur().kept_from(old.cur()));
        old.cur().chunk().lemma_grows_refl();
    }
}

impl Compiler {
    fn add_constant(&mut self, x: Value, Ghost(open): Ghost<Set<int>>) -> (r: Result<
        u8,
        CompileError,
    >)
        requires
            old(self)@.inv(open),
        ensures
            match r {
                Ok(k) => {
                    &&& old(self)@.add_constant(x@) == Ok::<(CompilerView, u8), CompileError>(
                        (final(self)@, k),
                    )
                    &&& final(self)@.inv(open)
                    &&& crate::layout::value_sealed(x@)
                        ==> final(self)@.keeps_pools(old(self)@)
                    &&& final(self)@.follows(old(self)@)
                },
                Err(e) => old(self)@.add_constant(x@) == Err::<(CompilerView, u8), CompileError>(e),
            },
    {
        let cur = self.ctxs.len() - 1;
        let n = self.ctxs[cur].function.chunk.constants.len();
        if n >= 256 {
            return Err(CompileError::TooManyConstants);
        }
        proof {
            let c = self@.cur();
            c.chunk().lemma_tidy_constant(open + c.pending(), x@);
        }
        let k = self.ctxs[cur].function.chunk.add_constant(x);
        proof {
            assert(self@.ctxs =~= old(self)@.add_constant(x@)->Ok_0.0.ctxs);
            if crate::layout::value_sealed(x@) {
                self@.lemma_pools_pushed(old(self)@, x@);
            }
        }
        Ok(k as u8)
    }

    /// Emits an instruction of one byte.
    fn emit_op(&mut self, op: Op, Ghost(open): Ghost<Set<int>>)
        requires
            old(self)@.inv(open),
            op.spec_width() == 1,
        ensures
            final(self)@ == old(self)@.emit(seq![op.byte()]),
            final(self)@.inv(open),
            final(self)@.follows(old(self)@),
            final(self)@.keeps_pools(old(self)@),
    {
        let bytes = vec![op.to_u8()];
        proof {
            assert(bytes@ =~= seq![op.byte()]);
            self@.cur().chunk().lemma_takes(op, bytes@);
        }
        self.emit(bytes, Ghost(open));
    }

    /// Emits an instruction with a one-byte operand.
    fn emit_op_arg(&mut self, op: Op, arg: u8, Ghost(open): Ghost<Set<int>>)
        requires
            old(self)@.inv(open),
            op.spec_width() == 2,
            op != Op::MakeClosure,
        ensures
            final(self)@ == old(self)@.emit(seq![op.byte(), arg]),
            final(self)@.inv(open),
            final(self)@.follows(old(self)@),
            final(self)@.keeps_pools(old(self)@),
    {
        let bytes = vec![op.to_u8(), arg];
        proof {
            assert(bytes@ =~= seq![op.byte(), arg]);
            self@.cur().chunk().lemma_takes(op, bytes@);
        }
        self.emit(bytes, Ghost(open));
    }

    /// Emits `op` with a new constant `x` as its operand.
    fn emit_with_constant(&mut self, op: Op, x: Value, Ghost(open): Ghost<Set<int>>) -> (r: Result<
        (),
        CompileError,
    >)
        requires
            old(self)@.inv(open),
            op.spec_width() == 2,
            op != Op::MakeClosure,
        ensures
            match r {
                Ok(()) => {
                    &&& old(self)@.emit_with_constant(op, x@) == Ok::<CompilerView, CompileError>(
                        final(self)@,
                    )
                    &&& final(self)@.inv(open)
                    &&& crate::layout::value_sealed(x@)
                        ==> final(self)@.keeps_pools(old(self)@)
                    &&& final(self)@.follows(old(self)@)
                },
                Err(e) => old(self)@.emit_with_constant(op, x@) == Err::<
                    CompilerView,
                    CompileError,
                >(e),
            },
    {
        let k = match self.add_constant(x, Ghost(open)) {
            Ok(k) => k,
            Err(e) => {
                return Err(e);
            },
        };
        let ghost mid = self@;
        self.emit_op_arg(op, k, Ghost(open));
        proof {
            self@.lemma_follows_trans(mid, old(self)@);
        }
        Ok(())
    }

    /// The slot of the local `name` of the function `ctx_i`.
    fn resolve_local(&self, name: &String, ctx_i: usize) -> (r: Option<usize>)
        requires
            ctx_i < self.ctxs.len(),
        ensures
            match r {
                Some(i) => self@.ctxs[ctx_i as int].resolve_local(name@) == Some(i as nat) && i
                    < self@.ctxs[ctx_i as int].locals.len(),
                None => self@.ctxs[ctx_i as int].resolve_local(name@) is None,
            },
    {
        let locals = &self.ctxs[ctx_i].locals;
        let ghost ctx = self@.ctxs[ctx_i as int];
        let mut i = locals.len();
        while i > 0
            invariant
                i <= locals.len(),
                ctx_i < self.ctxs.len(),
                ctx == self@.ctxs[ctx_i as int],
                ctx.locals == locals_view(locals@),
                ctx.resolve_local(name@) == ctx.find_local(name@, i as nat),
            decreases i,
        {
            if locals[i - 1].name == *name {
                return Some(i - 1);
            }
            i -= 1;
        }
        None
    }

    /// The constant of the function at hand that names the global `name`.
    fn resolve_global(&self, name: &String) -> (r: Option<usize>)
        requires
            self.ctxs.len() > 0,
        ensures
            match r {
                Some(i) => self@.cur().resolve_global(name@) == Some(i as nat) && i
                    < self@.cur().chunk().constants.len(),
                None => self@.cur().resolve_global(name@) is None,
            },
    {
        let consts = &self.ctxs[self.ctxs.len() - 1].function.chunk.constants;
        let ghost ctx = self@.cur();
        let mut i: usize = 0;
        while i < consts.len()
            invariant
                i <= consts.len(),
                self.ctxs.len() > 0,
                ctx == self@.cur(),
                ctx.chunk().constants == crate::value::values_view(consts@),
                ctx.resolve_global(name@) == ctx.find_global(name@, i as nat),
            decreases consts.len() - i,
        {
            let hit = match &consts[i] {
                Value::Str(x) => *x == *name,
                _ => false,
            };
            if hit {
                return Some(i);
            }
            i += 1;
        }
        None
    }

    /// Registers `up_insert` with the function `ctx_i` and returns its
    /// index.
    fn add_upvalue(&mut self, up_insert: Upvalue, ctx_i: usize) -> (k: usize)
        requires
            ctx_i < old(self).ctxs.len(),
            old(self)@.ctxs[ctx_i as int].bounded(),
            capture_index(up_insert) <= 255,
        ensures
            (final(self)@.ctxs[ctx_i as int], k as nat) == old(self)@.ctxs[ctx_i as int].add_upvalue(
                up_insert,
            ),
            final(self)@ == old(self)@.with_ctx(ctx_i as int, final(self)@.ctxs[ctx_i as int]),
            k <= 256,
            k <= 255 ==> final(self)@.ctxs[ctx_i as int].bounded(),
            final(self)@.ctxs[ctx_i as int].kept_from(old(self)@.ctxs[ctx_i as int]),
    {
        let ghost ctx = self@.ctxs[ctx_i as int];
        let n = self.ctxs[ctx_i].upvalues.len();
        let mut i: usize = 0;
        while i < n
            invariant
                i <= n,
                ctx_i < self.ctxs.len(),
                n == self.ctxs[ctx_i as int].upvalues.len(),
                self@ == old(self)@,
                ctx == self@.ctxs[ctx_i as int],
                ctx.bounded(),
                ctx.find_upvalue(up_insert, 0) == ctx.find_upvalue(up_insert, i as nat),
            decreases n - i,
        {
            let up_found = self.ctxs[ctx_i].upvalues[i];
            let same = match (up_found, up_insert) {
                (Upvalue::Local(x), Upvalue::Local(y)) => x == y,
                (Upvalue::NonLocal(x), Upvalue::NonLocal(y)) => x == y,
                _ => false,
            };
            if same {
                proof {
                    assert(self@.ctxs =~= old(self)@.with_ctx(ctx_i as int, ctx).ctxs);
                }
                return i;
            }
            i += 1;
        }
        self.ctxs[ctx_i].function.upvalue_count += 1;
        self.ctxs[ctx_i].upvalues.push(up_insert);
        proof {
            assert(self@.ctxs =~= old(self)@.with_ctx(
                ctx_i as int,
                self@.ctxs[ctx_i as int],
            ).ctxs);
        }
        n
    }
}

} // verus!

verus! {

impl CompilerView {
    /// Whether the functions among the constants of every function at
    /// hand are whole.
    #[verifier::opaque]
    pub open spec fn pools_sealed(self) -> bool {
        forall|i: int|
            0 <= i < self.ctxs.len() ==> crate::layout::pool_sealed(
                (#[trigger] self.ctxs[i]).chunk().constants,
            )
    }

    /// If the functions among the constants were whole in `old`, they are
    /// whole in this state.
    pub open spec fn keeps_pools(self, old: CompilerView) -> bool {
        old.pools_sealed() ==> self.pools_sealed()
    }

    /// A state with the constants of `old` keeps them whole.
    pub(crate) proof fn lemma_pools_same(self, old: CompilerView)
        requires
            self.ctxs.len() == old.ctxs.len(),
            forall|i: int|
                0 <= i < old.ctxs.len() ==> (#[trigger] self.ctxs[i]).chunk().constants
                    == old.ctxs[i].chunk().constants,
        ensures
            self.keeps_pools(old),
    {
        reveal(CompilerView::pools_sealed);
        if old.pools_sealed() {
            assert forall|i: int| 0 <= i < self.ctxs.len() implies crate::layout::pool_sealed(
                (#[trigger] self.ctxs[i]).chunk().constants,
            ) by {
                assert(crate::layout::pool_sealed(old.ctxs[i].chunk().constants));
            }
        }
    }

    /// A state with one more constant in the function at hand keeps the
    /// constants whole if that one is.
    pub(crate) proof fn lemma_pools_pushed(self, old: CompilerView, v: ValueView)
        requires
            self.ctxs.len() == old.ctxs.len(),
            old.ctxs.len() > 0,
            forall|i: int|
                0 <= i < old.ctxs.len() - 1 ==> (#[trigger] self.ctxs[i]).chunk().constants
                    == old.ctxs[i].chunk().constants,
            self.cur().chunk().constants == old.cur().chunk().constants.push(v),
            crate::layout::value_sealed(v),
        ensures
            self.keeps_pools(old),
    {
        reveal(CompilerView::pools_sealed);
        if old.pools_sealed() {
            assert forall|i: int| 0 <= i < self.ctxs.len() implies crate::layout::pool_sealed(
                (#[trigger] self.ctxs[i]).chunk().constants,
            ) by {
                assert(crate::layout::pool_sealed(old.ctxs[i].chunk().constants));
            }
        }
    }

    /// What `relabels` keeps, it keeps whole.
    pub(crate) proof fn lemma_pools_relabels(self, old: CompilerView)
        requires
            self.relabels(old),
        ensures
            self.keeps_pools(old),
    {
        assert forall|i: int| 0 <= i < old.ctxs.len() implies (
        #[trigger] self.ctxs[i]).chunk().constants == old.ctxs[i].chunk().constants by {
            assert(self.ctxs[i].kept_from(old.ctxs[i]));
        }
        self.lemma_pools_same(old);
    }

    /// The tables of every function are within bounds.
    pub open spec fn all_bounded(self) -> bool {
        forall|i: int| 0 <= i < self.ctxs.len() ==> (#[trigger] self.ctxs[i]).bounded()
    }
}

impl Compiler {
    fn register(&mut self, up: Upvalue, ctx_i: usize) -> (r: Result<Option<usize>, CompileError>)
        requires
            ctx_i < old(self).ctxs.len(),
            old(self)@.all_bounded(),
            capture_index(up) <= 255,
        ensures
            match r {
                Ok(Some(k)) => {
                    &&& old(self)@.register(ctx_i as int, up) == Ok::<
                        (CompilerView, Option<nat>),
                        CompileError,
                    >((final(self)@, Some(k as nat)))
                    &&& k <= 255
                    &&& final(self)@.relabels(old(self)@)
                    &&& final(self)@.all_bounded()
                },
                Ok(None) => false,
                Err(e) => old(self)@.register(ctx_i as int, up) == Err::<
                    (CompilerView, Option<nat>),
                    CompileError,
                >(e),
            },
    {
        let k = self.add_upvalue(up, ctx_i);
        if k > 255 {
            Err(CompileError::TooManyUpvalues)
        } else {
            Ok(Some(k))
        }
    }

    /// Resolves `name` as a variable that the function `ctx_i` captures.
    fn resolve_upvalue(&mut self, name: &String, ctx_i: usize) -> (r: Result<
        Option<usize>,
        CompileError,
    >)
        requires
            ctx_i < old(self).ctxs.len(),
            old(self)@.all_bounded(),
        ensures
            match r {
                Ok(found) => {
                    &&& old(self)@.resolve_upvalue(name@, ctx_i as nat) == Ok::<
                        (CompilerView, Option<nat>),
                        CompileError,
                    >(
                        (
                            final(self)@,
                            match found {
                                Some(k) => Some(k as nat),
                                None => None,
                            },
                        ),
                    )
                    &&& found matches Some(k) ==> k <= 255
                    &&& final(self)@.relabels(old(self)@)
                    &&& final(self)@.all_bounded()
                },
                Err(e) => old(self)@.resolve_upvalue(name@, ctx_i as nat) == Err::<
                    (CompilerView, Option<nat>),
                    CompileError,
                >(e),
            },
        decreases ctx_i,
    {
        if ctx_i == 0 {
            return Ok(None);
        }
        match self.resolve_local(name, ctx_i - 1) {
            Some(idx) => {
                self.ctxs[ctx_i - 1].locals[idx].captured = true;
                proof {
                    let below = old(self)@.ctxs[ctx_i - 1];
                    let marked = CCtxView {
                        locals: below.locals.update(
                            idx as int,
                            LocalView { captured: true, ..below.locals[idx as int] },
                        ),
                        ..below
                    };
                    assert(self@.ctxs[ctx_i - 1].locals =~= marked.locals);
                    assert(self@.ctxs =~= old(self)@.with_ctx(ctx_i - 1, marked).ctxs);
                }
                let ghost mid = self@;
                let r = self.register(Upvalue::Local(idx), ctx_i);
                proof {
                    if r is Ok {
                        assert forall|i: int| 0 <= i < old(self)@.ctxs.len() implies (
                        #[trigger] self@.ctxs[i]).kept_from(old(self)@.ctxs[i]) by {
                            assert(self@.ctxs[i].kept_from(mid.ctxs[i]));
                        }
                    }
                }
                r
            },
            None => {
                let found = match self.resolve_upvalue(name, ctx_i - 1) {
                    Ok(found) => found,
                    Err(e) => {
                        return Err(e);
                    },
                };
                match found {
                    None => Ok(None),
                    Some(j) => {
                        let ghost mid = self@;
                        let r = self.register(Upvalue::NonLocal(j), ctx_i);
                        proof {
                            if r is Ok {
                                assert forall|i: int| 0 <= i < old(self)@.ctxs.len() implies (
                                #[trigger] self@.ctxs[i]).kept_from(old(self)@.ctxs[i]) by {
                                    assert(self@.ctxs[i].kept_from(mid.ctxs[i]));
                                    assert(mid.ctxs[i].kept_from(old(self)@.ctxs[i]));
                                }
                            }
                        }
                        r
                    },
                }
            },
        }
    }

    /// Compiles a read of the variable `name`.
    fn compile_get(&mut self, name: &String, Ghost(open): Ghost<Set<int>>) -> (r: Result<
        (),
        CompileError,
    >)
        requires
            old(self)@.inv(open),
        ensures
            match r {
                Ok(()) => {
                    &&& old(self)@.get(name@) == Ok::<CompilerView, CompileError>(final(self)@)
                    &&& final(self)@.inv(open)
                    &&& final(self)@.keeps_pools(old(self)@)
                    &&& final(self)@.follows(old(self)@)
                },
                Err(e) => old(self)@.get(name@) == Err::<CompilerView, CompileError>(e),
            },
    {
        let cur = self.ctxs.len() - 1;
        match self.resolve_local(name, cur) {
            Some(i) => {
                self.emit_op_arg(Op::GetLocal, i as u8, Ghost(open));
                Ok(())
            },
            None => {
                let found = match self.resolve_upvalue(name, cur) {
                    Ok(found) => found,
                    Err(e) => {
                        return Err(e);
                    },
                };
                let ghost mid = self@;
                proof {
                    mid.lemma_relabels(old(self)@, open);
                    mid.lemma_pools_relabels(old(self)@);
                }
                match found {
                    Some(j) => {
                        self.emit_op_arg(Op::GetUpvalue, j as u8, Ghost(open));
                        proof {
                            self@.lemma_follows_trans(mid, old(self)@);
                        }
                        Ok(())
                    },
                    None => {
                        let r = self.emit_with_constant(
                            Op::GetGlobal,
                            Value::Str(name.clone()),
                            Ghost(open),
                        );
                        proof {
                            if r is Ok {
                                self@.lemma_follows_trans(mid, old(self)@);
                            }
                        }
                        r
                    },
                }
            },
        }
    }

    /// Compiles an assignment of the value on the stack to the variable
    /// `name`.
    fn compile_assign(&mut self, name: &String, Ghost(open): Ghost<Set<int>>) -> (r: Result<
        (),
        CompileError,
    >)
        requires
            old(self)@.inv(open),
        ensures
            match r {
                Ok(()) => {
                    &&& old(self)@.assign(name@) == Ok::<CompilerView, CompileError>(final(self)@)
                    &&& final(self)@.inv(open)
                    &&& final(self)@.keeps_pools(old(self)@)
                    &&& final(self)@.follows(old(self)@)
                },
                Err(e) => old(self)@.assign(name@) == Err::<CompilerView, CompileError>(e),
            },
    {
        let cur = self.ctxs.len() - 1;
        match self.resolve_local(name, cur) {
            Some(i) => {
                self.emit_op_arg(Op::SetLocal, i as u8, Ghost(open));
                Ok(())
            },
            None => {
                let found = match self.resolve_upvalue(name, cur) {
                    Ok(found) => found,
                    Err(e) => {
                        return Err(e);
                    },
                };
                let ghost mid = self@;
                proof {
                    mid.lemma_relabels(old(self)@, open);
                    mid.lemma_pools_relabels(old(self)@);
                }
                match found {
                    Some(j) => {
                        self.emit_op_arg(Op::SetUpvalue, j as u8, Ghost(open));
                        proof {
                            self@.lemma_follows_trans(mid, old(self)@);
                        }
                        Ok(())
                    },
                    None => match self.resolve_global(name) {
                        Some(k) => {
                            self.emit_op_arg(Op::SetGlobal, k as u8, Ghost(open));
                            proof {
                                self@.lemma_follows_trans(mid, old(self)@);
                            }
                            Ok(())
                        },
                        None => Err(CompileError::UndefinedVariable),
                    },
                }
            },
        }
    }
}

} // verus!

verus! {

pub(crate) proof fn lemma_sites_push_empty(lists: Seq<Seq<usize>>)
    ensures
        sites(lists.push(Seq::empty())) == sites(lists),
{
    let more = lists.push(Seq::<usize>::empty());
    assert forall|p: int| sites(more).contains(p) == sites(lists).contains(p) by {
        if sites(more).contains(p) {
            let (k, i) = choose|k: int, i: int|
                0 <= k < more.len() && 0 <= i < more[k].len() && #[trigger] more[k][i] == p;
            assert(lists[k][i] == p);
        }
        if sites(lists).contains(p) {
            let (k, i) = choose|k: int, i: int|
                0 <= k < lists.len() && 0 <= i < lists[k].len() && #[trigger] lists[k][i] == p;
            assert(more[k][i] == p);
        }
    }
    assert(sites(more) =~= sites(lists));
}

pub(crate) proof fn lemma_sites_add(lists: Seq<Seq<usize>>, site: usize)
    requires
        lists.len() > 0,
    ensures
        sites(lists.update(lists.len() - 1, lists.last().push(site))) == sites(lists).insert(
            site as int,
        ),
{
    let last = lists.len() - 1;
    let more = lists.update(last, lists.last().push(site));
    assert forall|p: int| sites(more).contains(p) == sites(lists).insert(site as int).contains(
        p,
    ) by {
        if sites(more).contains(p) {
            let (k, i) = choose|k: int, i: int|
                0 <= k < more.len() && 0 <= i < more[k].len() && #[trigger] more[k][i] == p;
            if k == last && i == lists[last].len() {
            } else {
                assert(lists[k][i] == p);
            }
        }
        if sites(lists).contains(p) {
            let (k, i) = choose|k: int, i: int|
                0 <= k < lists.len() && 0 <= i < lists[k].len() && #[trigger] lists[k][i] == p;
            assert(more[k][i] == p);
        }
        if p == site {
            assert(more[last][lists[last].len() as int] == p);
        }
    }
    assert(sites(more) =~= sites(lists).insert(site as int));
}

pub(crate) proof fn lemma_sites_drop(lists: Seq<Seq<usize>>)
    requires
        lists.len() > 0,
    ensures
        sites(lists.drop_last()).subset_of(sites(lists)),
        forall|p: int| #[trigger]
            sites(lists).contains(p) && !sites(lists.drop_last()).contains(p) ==> exists|i: int|
                0 <= i < lists.last().len() && #[trigger] lists.last()[i] == p,
{
    let less = lists.drop_last();
    assert forall|p: int| sites(less).contains(p) implies sites(lists).contains(p) by {
        let (k, i) = choose|k: int, i: int|
            0 <= k < less.len() && 0 <= i < less[k].len() && #[trigger] less[k][i] == p;
        assert(lists[k][i] == p);
    }
    assert forall|p: int| #[trigger]
        sites(lists).contains(p) && !sites(less).contains(p) implies exists|i: int|
        0 <= i < lists.last().len() && #[trigger] lists.last()[i] == p by {
        let (k, i) = choose|k: int, i: int|
            0 <= k < lists.len() && 0 <= i < lists[k].len() && #[trigger] lists[k][i] == p;
        if k < less.len() {
            assert(less[k][i] == p);
        } else {
            assert(lists.last()[i] == p);
        }
    }
}

pub(crate) proof fn lemma_capture_bytes_len(ups: Seq<Upvalue>, n: nat)
    ensures
        capture_bytes(ups, n).len() == 2 * n,
    decreases n,
{
    if n > 0 {
        lemma_capture_bytes_len(ups, (n - 1) as nat);
    }
}

impl ChunkView {
    /// A `MakeClosure` with a flag and an index for each variable that
    /// the function captures is one instruction, and no jump.
    pub(crate) proof fn lemma_takes_closure(self, k: u8, bytes: Seq<u8>)
        requires
            k < self.constants.len(),
            self.constants[k as int] matches ValueView::Function(f) && bytes.len() == 2 + 2
                * f.upvalue_count,
            bytes[0] == Op::MakeClosure.byte(),
            bytes[1] == k,
        ensures
            self.takes(bytes),
            !self.append(bytes).is_jump(self.code.len() as int),
    {
        let c = self.append(bytes);
        let at = self.code.len() as int;
        assert(c.code[at] == bytes[0]);
        assert(c.code[at + 1] == bytes[1]);
    }
}

impl Compiler {
    fn declare_var(&mut self, name: &String, Ghost(open): Ghost<Set<int>>) -> (r: Result<
        (),
        CompileError,
    >)
        requires
            old(self)@.inv(open),
        ensures
            match r {
                Ok(()) => {
                    &&& old(self)@.declare(name@) == Ok::<CompilerView, CompileError>(final(self)@)
                    &&& final(self)@.inv(open)
                    &&& final(self)@.keeps_pools(old(self)@)
                    &&& final(self)@.follows(old(self)@)
                },
                Err(e) => old(self)@.declare(name@) == Err::<CompilerView, CompileError>(e),
            },
    {
        let cur = self.ctxs.len() - 1;
        let depth = self.ctxs[cur].scope_depth;
        proof {
            self@.lemma_follows_refl();
            self@.lemma_pools_same(old(self)@);
        }
        if depth == 0 {
            return Ok(());
        }
        if self.ctxs[cur].locals.len() >= 256 {
            return Err(CompileError::TooManyLocals);
        }
        self.ctxs[cur].locals.push(Local { name: name.clone(), depth, captured: false });
        proof {
            let c = old(self)@.cur();
            assert(self@.cur().locals =~= c.locals.push(
                LocalView { name: name@, depth: c.scope_depth, captured: false },
            ));
            assert(self@.ctxs =~= old(self)@.declare(name@)->Ok_0.ctxs);
            self@.lemma_pools_same(old(self)@);
        }
        Ok(())
    }

    fn define_var(&mut self, name: &String, Ghost(open): Ghost<Set<int>>) -> (r: Result<
        (),
        CompileError,
    >)
        requires
            old(self)@.inv(open),
        ensures
            match r {
                Ok(()) => {
                    &&& old(self)@.define(name@) == Ok::<CompilerView, CompileError>(final(self)@)
                    &&& final(self)@.inv(open)
                    &&& final(self)@.keeps_pools(old(self)@)
                    &&& final(self)@.follows(old(self)@)
                },
                Err(e) => old(self)@.define(name@) == Err::<CompilerView, CompileError>(e),
            },
    {
        let cur = self.ctxs.len() - 1;
        if self.ctxs[cur].scope_depth == 0 {
            self.emit_with_constant(Op::SetGlobal, Value::Str(name.clone()), Ghost(open))
        } else {
            proof {
                self@.lemma_follows_refl();
            }
            Ok(())
        }
    }

    fn begin_scope(&mut self, Ghost(open): Ghost<Set<int>>) -> (r: Result<(), CompileError>)
        requires
            old(self)@.inv(open),
        ensures
            match r {
                Ok(()) => {
                    &&& old(self)@.begin_scope() == Ok::<CompilerView, CompileError>(final(self)@)
                    &&& final(self)@.inv(open)
                    &&& final(self)@.keeps_pools(old(self)@)
                    &&& final(self)@.extends(old(self)@)
                    &&& final(self)@.cur().scope_depth == old(self)@.cur().scope_depth + 1
                    &&& final(self)@.cur().continues.len() == old(self)@.cur().continues.len()
                    &&& final(self)@.cur().breaks.len() == old(self)@.cur().breaks.len()
                },
                Err(e) => old(self)@.begin_scope() == Err::<CompilerView, CompileError>(e),
            },
    {
        let cur = self.ctxs.len() - 1;
        if self.ctxs[cur].scope_depth == usize::MAX {
            return Err(CompileError::TooDeep);
        }
        self.ctxs[cur].scope_depth += 1;
        proof {
            assert(self@.ctxs =~= old(self)@.begin_scope()->Ok_0.ctxs);
            old(self)@.cur().chunk().lemma_grows_refl();
            self@.lemma_pools_same(old(self)@);
        }
        Ok(())
    }

    fn end_scope(&mut self, Ghost(open): Ghost<Set<int>>)
        requires
            old(self)@.inv(open),
            old(self)@.cur().scope_depth >= 1,
        ensures
            final(self)@ == old(self)@.end_scope(),
            final(self)@.inv(open),
            final(self)@.extends(old(self)@),
            final(self)@.cur().scope_depth == old(self)@.cur().scope_depth - 1,
            final(self)@.cur().continues.len() == old(self)@.cur().continues.len(),
            final(self)@.cur().breaks.len() == old(self)@.cur().breaks.len(),
            final(self)@.keeps_pools(old(self)@),
    {
        let cur = self.ctxs.len() - 1;
        self.ctxs[cur].scope_depth -= 1;
        let depth = self.ctxs[cur].scope_depth;
        let ghost begun = self@;
        proof {
            let c = old(self)@.cur();
            assert(self@.ctxs =~= old(self)@.with_cur(
                CCtxView { scope_depth: (c.scope_depth - 1) as nat, ..c },
            ).ctxs);
            old(self)@.cur().chunk().lemma_grows_refl();
            self@.lemma_pools_same(old(self)@);
        }
        loop
            invariant
                begun == old(self)@.with_cur(
                    CCtxView {
                        scope_depth: (old(self)@.cur().scope_depth - 1) as nat,
                        ..old(self)@.cur()
                    },
                ),
                old(self)@.ctxs.len() == cur + 1,
                self.ctxs.len() == cur + 1,
                self@.inv(open),
                self@.extends(old(self)@),
                self@.keeps_pools(old(self)@),
                self@.cur().continues.len() == old(self)@.cur().continues.len(),
                self@.cur().breaks.len() == old(self)@.cur().breaks.len(),
                self@.cur().scope_depth == depth,
                depth == old(self)@.cur().scope_depth - 1,
                self@.with_cur(self@.cur().pop_locals()) == begun.with_cur(begun.cur().pop_locals()),
            ensures
                self@.cur().pop_locals() == self@.cur(),
            decreases self@.cur().locals.len(),
        {
            let n = self.ctxs[cur].locals.len();
            if n == 0 || self.ctxs[cur].locals[n - 1].depth <= depth {
                proof {
                    if n > 0 {
                        assert(self@.cur().locals.last() == self.ctxs[cur as int].locals[n - 1]@);
                    }
                }
                break ;
            }
            let ghost before = self@;
            self.ctxs[cur].locals.pop();
            proof {
                assert(self@.cur().locals =~= before.cur().locals.drop_last());
                assert(self@.ctxs =~= before.with_cur(
                    CCtxView { locals: before.cur().locals.drop_last(), ..before.cur() },
                ).ctxs);
                assert(self@.cur().pending() == before.cur().pending());
                self@.lemma_pools_same(before);
            }
            let ghost popped = self@;
            self.emit_op(Op::Pop, Ghost(open));
            proof {
                self@.lemma_extends_trans(popped, old(self)@);
                assert(self@.cur() == CCtxView {
                    locals: before.cur().locals.drop_last(),
                    ..before.cur()
                }.emit(seq![Op::Pop.byte()]));
                assert(self@.with_cur(self@.cur().pop_locals()).ctxs =~= before.with_cur(
                    before.cur().pop_locals(),
                ).ctxs);
            }
        }
        proof {
            assert(self@.with_cur(self@.cur()).ctxs =~= self@.ctxs);
            assert(begun.with_cur(begun.cur().pop_locals()).ctxs =~= old(self)@.end_scope().ctxs);
        }
    }
}

} // verus!

verus! {

impl Compiler {
    /// Lets the relative jump at `site` go to the address at hand.
    fn land(
        &mut self,
        site: usize,
        Ghost(open): Ghost<Set<int>>,
        Ghost(rest): Ghost<Set<int>>,
    ) -> (r: Result<(), CompileError>)
        requires
            old(self)@.inv(open),
            open.contains(site as int),
            rest.subset_of(open),
            open.subset_of(rest.insert(site as int)),
            old(self)@.cur().chunk().code[site as int] == Op::JumpIfFalse.byte()
                || old(self)@.cur().chunk().code[site as int] == Op::Jump.byte(),
        ensures
            match r {
                Ok(()) => {
                    &&& old(self)@.land(site as nat) == Ok::<CompilerView, CompileError>(
                        final(self)@,
                    )
                    &&& final(self)@.inv(rest)
                    &&& final(self)@.keeps_pools(old(self)@)
                    &&& final(self)@.follows(old(self)@)
                },
                Err(e) => old(self)@.land(site as nat) == Err::<CompilerView, CompileError>(e),
            },
    {
        let cur = self.ctxs.len() - 1;
        let here = self.ctxs[cur].function.chunk.code.len();
        let ghost c = self@.cur();
        let ghost all = open + c.pending();
        proof {
            c.chunk().lemma_tidy_open(all, site as int);
        }
        let distance = here - site;
        if distance > 0xffff {
            return Err(CompileError::JumpTooFar);
        }
        proof {
            let patched = c.chunk().with_double(site + 1, distance as nat);
            Op::JumpIfFalse.lemma_codec();
            Op::Jump.lemma_codec();
            assert(patched.code[site as int] == c.chunk().code[site as int]);
            assert(patched.double_at(site + 1) == distance);
            assert(patched.target(site as int) == here);
            c.chunk().lemma_tidy_end(all);
            c.chunk().lemma_tidy_patch(all, site as int, distance as nat);
            patched.lemma_tidy_narrow(all, rest + c.pending());
        }
        self.ctxs[cur].function.chunk.write_byte_double(site + 1, distance);
        proof {
            assert(self@.ctxs =~= old(self)@.land(site as nat)->Ok_0.ctxs);
            self@.cur().lemma_absolute(c, all);
            self@.lemma_pools_same(old(self)@);
        }
        Ok(())
    }

    fn enter_loop(&mut self, Ghost(open): Ghost<Set<int>>)
        requires
            old(self)@.inv(open),
        ensures
            final(self)@ == old(self)@.enter_loop(),
            final(self)@.inv(open),
            final(self)@.extends(old(self)@),
            final(self)@.cur().scope_depth == old(self)@.cur().scope_depth,
            final(self)@.cur().continues.len() == old(self)@.cur().continues.len() + 1,
            final(self)@.cur().breaks.len() == old(self)@.cur().breaks.len() + 1,
            final(self)@.cur().chunk() == old(self)@.cur().chunk(),
            final(self)@.keeps_pools(old(self)@),
    {
        let cur = self.ctxs.len() - 1;
        self.ctxs[cur].continues.push(Vec::new());
        self.ctxs[cur].breaks.push(Vec::new());
        proof {
            let c = old(self)@.cur();
            assert(self@.cur().continues =~= c.continues.push(Seq::empty()));
            assert(self@.cur().breaks =~= c.breaks.push(Seq::empty()));
            assert(self@.ctxs =~= old(self)@.enter_loop().ctxs);
            lemma_sites_push_empty(c.continues);
            lemma_sites_push_empty(c.breaks);
            c.chunk().lemma_grows_refl();
            self@.lemma_pools_same(old(self)@);
        }
    }

    /// Compiles `continue`, if `again`, or `break`.
    fn jump_out(&mut self, again: bool, Ghost(open): Ghost<Set<int>>) -> (r: Result<
        (),
        CompileError,
    >)
        requires
            old(self)@.inv(open),
        ensures
            match r {
                Ok(()) => {
                    &&& old(self)@.jump_out(again) == Ok::<CompilerView, CompileError>(final(self)@)
                    &&& final(self)@.inv(open)
                    &&& final(self)@.keeps_pools(old(self)@)
                    &&& final(self)@.follows(old(self)@)
                },
                Err(e) => old(self)@.jump_out(again) == Err::<CompilerView, CompileError>(e),
            },
    {
        let cur = self.ctxs.len() - 1;
        let n = if again {
            self.ctxs[cur].continues.len()
        } else {
            self.ctxs[cur].breaks.len()
        };
        if n == 0 {
            return Err(
                if again {
                    CompileError::ContinueOutsideLoop
                } else {
                    CompileError::BreakOutsideLoop
                },
            );
        }
        let site = self.emit_jump(Op::AbsJump, Ghost(open));
        let ghost jumped = self@;
        let ghost raw = self.ctxs@;
        if again {
            self.ctxs[cur].continues[n - 1].push(site);
        } else {
            self.ctxs[cur].breaks[n - 1].push(site);
        }
        proof {
            let c = old(self)@.cur();
            let j = jumped.cur();
            assert(self@.cur().locals =~= j.locals);
            assert(self@.cur().function == j.function);
            if again {
                assert(self@.cur().continues =~= c.continues.update(
                    n - 1,
                    c.continues.last().push(site),
                ));
                assert(self@.cur().breaks =~= j.breaks);
                lemma_sites_add(j.continues, site);
            } else {
                assert(self@.cur().breaks =~= c.breaks.update(n - 1, c.breaks.last().push(site)));
                assert(self@.cur().continues =~= j.continues);
                lemma_sites_add(j.breaks, site);
            }
            assert(self@.cur() == old(self)@.jump_out(again)->Ok_0.cur());
            self@.lemma_pools_same(jumped);
            assert(self@.ctxs.len() == jumped.ctxs.len());
            assert forall|i: int| 0 <= i < cur implies self@.ctxs[i] == jumped.ctxs[i] by {
                assert(self.ctxs@[i] == raw[i]);
            }
            let e = old(self)@.jump_out(again)->Ok_0;
            assert(old(self)@.jump_out(again) is Ok);
            assert(e.ctxs.len() == self@.ctxs.len());
            assert(e.ctxs[cur as int] == e.cur());
            assert(self@.ctxs[cur as int] == self@.cur());
            assert forall|i: int| 0 <= i < cur implies self@.ctxs[i] == e.ctxs[i] by {
                assert(jumped.ctxs[i] == old(self)@.ctxs[i]);
            }
            assert(self@.ctxs =~= old(self)@.jump_out(again)->Ok_0.ctxs);
            assert(open + self@.cur().pending() =~= open.insert(site as int) + j.pending());
            assert(self@.cur().pending() =~= j.pending().insert(site as int));
            assert(self@.cur().chunk() == j.chunk());
            assert(j.chunk().code[site as int] == Op::AbsJump.byte());
            assert forall|p: int| #[trigger] self@.cur().pending().contains(p) implies self@.cur().chunk().code[p]
                == Op::AbsJump.byte() by {
                if p != site {
                    assert(j.pending().contains(p));
                }
            }
            assert forall|i: int| 0 <= i < self@.ctxs.len() implies (
            #[trigger] self@.ctxs[i]).bounded() by {
                assert(jumped.ctxs[i].bounded());
            }
        }
        Ok(())
    }

    /// Gives each of the jumps at `sites` the target `target`.
    fn patch_sites(
        &mut self,
        sites: &Vec<usize>,
        target: usize,
        Ghost(all): Ghost<Set<int>>,
    )
        requires
            old(self).ctxs.len() > 0,
            old(self)@.cur().chunk().tidy(all),
            forall|i: int| 0 <= i < sites.len() ==> all.contains(#[trigger] sites[i] as int),
            forall|i: int|
                0 <= i < sites.len() ==> old(self)@.cur().chunk().code[#[trigger] sites[i] as int]
                    == Op::AbsJump.byte(),
            target <= 0xffff,
            old(self)@.cur().chunk().is_start(target as int),
        ensures
            final(self)@ == old(self)@.with_cur(
                old(self)@.cur().with_chunk(
                    old(self)@.cur().chunk().patch_all(sites@, 0, target as nat),
                ),
            ),
            final(self)@.cur().chunk().tidy(all),
            final(self)@.cur().chunk().constants == old(self)@.cur().chunk().constants,
            old(self)@.cur().chunk().grows_to(final(self)@.cur().chunk()),
            forall|i: int|
                0 <= i < sites.len() ==> final(self)@.cur().chunk().is_start(
                    final(self)@.cur().chunk().target(#[trigger] sites[i] as int),
                ),
            forall|q: int|
                all.contains(q) && (forall|i: int| 0 <= i < sites.len() ==> sites[i] != q)
                    ==> final(self)@.cur().chunk().target(q) == old(self)@.cur().chunk().target(q),
            forall|b: int|
                old(self)@.cur().chunk().is_start(b) <==> final(self)@.cur().chunk().is_start(b),
    {
        let cur = self.ctxs.len() - 1;
        let ghost first = self@.cur().chunk();
        let mut i: usize = 0;
        proof {
            first.lemma_grows_refl();
            assert(self@.ctxs =~= old(self)@.with_cur(old(self)@.cur().with_chunk(first)).ctxs);
        }
        while i < sites.len()
            invariant
                i <= sites.len(),
                self.ctxs.len() == cur + 1,
                old(self).ctxs.len() == cur + 1,
                first == old(self)@.cur().chunk(),
                target <= 0xffff,
                self@.cur().chunk().tidy(all),
                self@.cur().chunk().constants == first.constants,
                self@.cur().chunk().is_start(target as int),
                first.grows_to(self@.cur().chunk()),
                forall|j: int| 0 <= j < sites.len() ==> all.contains(#[trigger] sites[j] as int),
                forall|j: int|
                    0 <= j < sites.len() ==> self@.cur().chunk().code[#[trigger] sites[j] as int]
                        == Op::AbsJump.byte(),
                forall|j: int|
                    0 <= j < i ==> self@.cur().chunk().is_start(
                        self@.cur().chunk().target(#[trigger] sites[j] as int),
                    ),
                forall|q: int|
                    all.contains(q) && (forall|j: int| 0 <= j < i ==> sites[j] != q)
                        ==> self@.cur().chunk().target(q) == first.target(q),
                forall|b: int| first.is_start(b) <==> self@.cur().chunk().is_start(b),
                self@ == old(self)@.with_cur(old(self)@.cur().with_chunk(self@.cur().chunk())),
                self@.cur().chunk().patch_all(sites@, i as nat, target as nat) == first.patch_all(
                    sites@,
                    0,
                    target as nat,
                ),
            decreases sites.len() - i,
        {
            let site = sites[i];
            let ghost before = self@.cur().chunk();
            proof {
                before.lemma_tidy_open(all, site as int);
                let patched = before.with_double(site + 1, target as nat);
                Op::AbsJump.lemma_codec();
                assert(patched.code[site as int] == before.code[site as int]);
                assert(patched.double_at(site + 1) == target);
                assert(patched.target(site as int) == target);
                before.lemma_tidy_patch(all, site as int, target as nat);
                first.lemma_grows_trans(before, patched);
                assert forall|b: int| before.is_start(b) <==> patched.is_start(b) by {
                    if before.is_start(b) {
                        before.lemma_grows_start(patched, b);
                    }
                    if patched.is_start(b) {
                        patched.lemma_grows_start(before, b);
                    }
                }
                assert forall|j: int| 0 <= j < sites.len() implies patched.code[
                #[trigger] sites[j] as int] == Op::AbsJump.byte() by {
                    before.lemma_tidy_open(all, sites[j] as int);
                    before.lemma_grows_start(patched, sites[j] as int);
                }
                assert forall|j: int| 0 <= j < i + 1 implies patched.is_start(
                    patched.target(#[trigger] sites[j] as int),
                ) by {
                    if sites[j] != site {
                        assert(patched.target(sites[j] as int) == before.target(sites[j] as int));
                    }
                }
            }
            let ghost held = self@;
            let ghost raw = self.ctxs@;
            let len = self.ctxs[cur].function.chunk.code.len();
            self.ctxs[cur].function.chunk.write_byte_double(site + 1, target);
            proof {
                assert(self@.cur().locals =~= held.cur().locals);
                assert(self@.cur().continues =~= held.cur().continues);
                assert(self@.cur().breaks =~= held.cur().breaks);
                assert(self@.cur() == old(self)@.cur().with_chunk(self@.cur().chunk()));
                let e = old(self)@.with_cur(old(self)@.cur().with_chunk(self@.cur().chunk()));
                assert(e.ctxs.len() == self@.ctxs.len());
                assert(e.ctxs[cur as int] == self@.ctxs[cur as int]);
                assert forall|k: int| 0 <= k < cur implies self@.ctxs[k] == e.ctxs[k] by {
                    assert(self.ctxs@[k] == raw[k]);
                    assert(held.ctxs[k] == old(self)@.ctxs[k]);
                }
                assert(self@.ctxs =~= old(self)@.with_cur(
                    old(self)@.cur().with_chunk(self@.cur().chunk()),
                ).ctxs);
            }
            i += 1;
        }
    }
}

} // verus!

verus! {

impl Compiler {
    /// Ends the loop that began at `start`.
    fn leave_loop(&mut self, start: usize, Ghost(open): Ghost<Set<int>>) -> (r: Result<
        (),
        CompileError,
    >)
        requires
            old(self)@.inv(open),
            old(self)@.cur().continues.len() >= 1,
            old(self)@.cur().chunk().is_start(start as int),
        ensures
            match r {
                Ok(()) => {
                    &&& old(self)@.leave_loop(start as nat) == Ok::<CompilerView, CompileError>(
                        final(self)@,
                    )
                    &&& final(self)@.inv(open)
                    &&& final(self)@.keeps_pools(old(self)@)
                    &&& final(self)@.extends(old(self)@)
                    &&& final(self)@.cur().scope_depth == old(self)@.cur().scope_depth
                    &&& final(self)@.cur().continues.len() == old(self)@.cur().continues.len() - 1
                    &&& final(self)@.cur().breaks.len() == old(self)@.cur().breaks.len() - 1
                },
                Err(e) => old(self)@.leave_loop(start as nat) == Err::<CompilerView, CompileError>(
                    e,
                ),
            },
    {
        let cur = self.ctxs.len() - 1;
        let here = self.ctxs[cur].function.chunk.code.len();
        if here > 0xffff - 3 {
            return Err(CompileError::JumpTooFar);
        }
        let exit = here + 3;
        let ghost c = self@.cur();
        let ghost all = open + c.pending();
        let bytes = vec![Op::AbsJump.to_u8(), (start / 256) as u8, (start % 256) as u8];
        proof {
            assert(bytes@ =~= seq![Op::AbsJump.byte(), hi(start as nat), lo(start as nat)]);
            c.chunk().lemma_takes(Op::AbsJump, bytes@);
        }
        self.emit(bytes, Ghost(open));
        let ghost back = self@;
        let ghost raw = self.ctxs@;
        let conts = self.ctxs[cur].continues.pop().unwrap();
        let brks = self.ctxs[cur].breaks.pop().unwrap();
        let ghost popped = self@;
        proof {
            let b = back.cur();
            assert(b.continues == c.continues);
            assert(b.breaks == c.breaks);
            assert(conts@ == c.continues.last());
            assert(brks@ == c.breaks.last());
            assert(popped.cur().continues =~= c.continues.drop_last());
            assert(popped.cur().breaks =~= c.breaks.drop_last());
            assert(popped.cur().locals =~= b.locals);
            assert(popped.cur().chunk() == b.chunk());
            assert forall|i: int| 0 <= i < cur implies popped.ctxs[i] == back.ctxs[i] by {
                assert(self.ctxs@[i] == raw[i]);
            }
            // the jumps of the loop wait, are absolute and stand in the code
            assert forall|i: int| 0 <= i < conts.len() implies all.contains(
                #[trigger] conts[i] as int,
            ) && b.chunk().code[conts[i] as int] == Op::AbsJump.byte() by {
                assert(c.continues[c.continues.len() - 1][i] == conts[i]);
                assert(sites(c.continues).contains(conts[i] as int));
                assert(b.pending().contains(conts[i] as int));
            }
            assert forall|i: int| 0 <= i < brks.len() implies all.contains(
                #[trigger] brks[i] as int,
            ) && b.chunk().code[brks[i] as int] == Op::AbsJump.byte() by {
                assert(c.breaks[c.breaks.len() - 1][i] == brks[i]);
                assert(sites(c.breaks).contains(brks[i] as int));
                assert(b.pending().contains(brks[i] as int));
            }
            c.chunk().lemma_grows_start(b.chunk(), start as int);
            b.chunk().lemma_tidy_end(all);
        }
        self.patch_sites(&conts, start, Ghost(all));
        let ghost mid = self@;
        proof {
            assert forall|i: int| 0 <= i < brks.len() implies mid.cur().chunk().code[
            #[trigger] brks[i] as int] == Op::AbsJump.byte() by {
                back.cur().chunk().lemma_tidy_open(all, brks[i] as int);
                back.cur().chunk().lemma_grows_start(mid.cur().chunk(), brks[i] as int);
            }
        }
        self.patch_sites(&brks, exit, Ghost(all));
        proof {
            let b = back.cur();
            let f = self@.cur();
            let chunk = f.chunk();
            lemma_sites_drop(c.continues);
            lemma_sites_drop(c.breaks);
            // every jump of the loop has its target now
            assert forall|p: int| #[trigger] all.contains(p) && !(open + f.pending()).contains(
                p,
            ) implies chunk.is_start(chunk.target(p)) by {
                if sites(c.continues).contains(p) && !sites(c.continues.drop_last()).contains(p) {
                    let i = choose|i: int|
                        0 <= i < c.continues.last().len() && #[trigger] c.continues.last()[i] == p;
                    assert(conts[i] == p);
                    let t = mid.cur().chunk().target(p);
                    assert(mid.cur().chunk().is_start(t));
                    if forall|j: int| 0 <= j < brks.len() ==> brks[j] != p {
                        assert(chunk.target(p) == t);
                    } else {
                        let j = choose|j: int| 0 <= j < brks.len() && brks[j] == p;
                        assert(chunk.is_start(chunk.target(brks[j] as int)));
                    }
                } else {
                    let i = choose|i: int|
                        0 <= i < c.breaks.last().len() && #[trigger] c.breaks.last()[i] == p;
                    assert(brks[i] == p);
                    assert(chunk.is_start(chunk.target(brks[i] as int)));
                }
            }
            chunk.lemma_tidy_narrow(all, open + f.pending());
            b.chunk().lemma_grows_trans(mid.cur().chunk(), chunk);
            c.chunk().lemma_grows_trans(b.chunk(), chunk);
            f.lemma_absolute(c, all);
            assert(self@.cur() == old(self)@.leave_loop(start as nat)->Ok_0.cur());
            assert(self@.ctxs =~= old(self)@.leave_loop(start as nat)->Ok_0.ctxs);
            assert forall|i: int| 0 <= i < self@.ctxs.len() implies (
            #[trigger] self@.ctxs[i]).bounded() by {
                assert(back.ctxs[i].bounded());
                if i == cur {
                    assert(mid.cur().chunk().constants == b.chunk().constants);
                    assert(f.chunk().constants == b.chunk().constants);
                    assert(f.upvalues == b.upvalues);
                    assert(f.locals == b.locals);
                }
            }
            assert forall|i: int| 0 <= i < old(self)@.ctxs.len() - 1 implies (
            #[trigger] self@.ctxs[i]).kept_from(old(self)@.ctxs[i]) by {
                assert(back.ctxs[i].kept_from(old(self)@.ctxs[i]));
            }
            assert forall|i: int| 0 <= i < back.ctxs.len() implies (
            #[trigger] self@.ctxs[i]).chunk().constants == back.ctxs[i].chunk().constants by {
                if i == cur {
                    assert(mid.cur().chunk().constants == b.chunk().constants);
                    assert(f.chunk().constants == b.chunk().constants);
                } else {
                    assert(self@.ctxs[i] == back.ctxs[i]);
                }
            }
            self@.lemma_pools_same(back);
        }
        Ok(())
    }
}

} // verus!

verus! {

impl Compiler {
    /// Begins the function with the parameters `params`.
    fn enter_function(&mut self, params: &Vec<String>) -> (r: Result<(), CompileError>)
        requires
            old(self)@.all_bounded(),
        ensures
            match r {
                Ok(()) => {
                    &&& old(self)@.enter_function(crate::common::names_view(params@)) == Ok::<
                        CompilerView,
                        CompileError,
                    >(final(self)@)
                    &&& final(self)@.inv(Set::empty())
                    &&& final(self)@.keeps_pools(old(self)@)
                    &&& final(self)@.ctxs.drop_last() == old(self)@.ctxs
                    &&& final(self)@.cur().continues.len() == 0
                    &&& final(self)@.cur().breaks.len() == 0
                },
                Err(e) => old(self)@.enter_function(crate::common::names_view(params@)) == Err::<
                    CompilerView,
                    CompileError,
                >(e),
            },
    {
        if params.len() > 256 {
            return Err(CompileError::TooManyLocals);
        }
        let mut ctx = CCtx::blank();
        ctx.function.arity = params.len();
        ctx.scope_depth = 1;
        let mut i: usize = 0;
        while i < params.len()
            invariant
                i <= params.len(),
                ctx.locals.len() == i,
                forall|j: int|
                    0 <= j < i ==> (#[trigger] ctx.locals[j])@ == (LocalView {
                        name: params[j]@,
                        depth: 1,
                        captured: false,
                    }),
                ctx.function@ == (FunctionView {
                    arity: params.len() as nat,
                    ..CCtxView::fresh().function
                }),
                ctx.upvalues@ == Seq::<Upvalue>::empty(),
                ctx.scope_depth == 1,
                ctx.continues@ == Seq::<Vec<usize>>::empty(),
                ctx.breaks@ == Seq::<Vec<usize>>::empty(),
            decreases params.len() - i,
        {
            ctx.locals.push(Local { name: params[i].clone(), depth: 1, captured: false });
            i += 1;
        }
        proof {
            let names = crate::common::names_view(params@);
            let want = old(self)@.enter_function(names)->Ok_0;
            assert(ctx@.locals =~= want.cur().locals);
            assert(ctx@.continues =~= Seq::empty());
            assert(ctx@.breaks =~= Seq::empty());
            assert(ctx@ == want.cur());
        }
        self.ctxs.push(ctx);
        proof {
            let names = crate::common::names_view(params@);
            let want = old(self)@.enter_function(names)->Ok_0;
            assert(self@.ctxs =~= want.ctxs);
            assert(self@.ctxs.drop_last() =~= old(self)@.ctxs);
            self@.cur().chunk().lemma_tidy_empty();
            assert(self@.cur().pending() =~= Set::empty());
            assert(Set::<int>::empty() + self@.cur().pending() =~= Set::empty());
            assert forall|i: int| 0 <= i < self@.ctxs.len() implies (
            #[trigger] self@.ctxs[i]).bounded() by {
                if i < old(self)@.ctxs.len() {
                    assert(old(self)@.ctxs[i].bounded());
                }
            }
            reveal(CompilerView::pools_sealed);
            if old(self)@.pools_sealed() {
                assert forall|i: int| 0 <= i < self@.ctxs.len() implies crate::layout::pool_sealed(
                    (#[trigger] self@.ctxs[i]).chunk().constants,
                ) by {
                    if i < old(self)@.ctxs.len() {
                        assert(self@.ctxs[i] == old(self)@.ctxs[i]);
                        assert(crate::layout::pool_sealed(old(self)@.ctxs[i].chunk().constants));
                    }
                }
            }
        }
        Ok(())
    }

    /// Ends the code of the function at hand: if control comes this far,
    /// the function returns nothing.
    fn seal(&mut self, Ghost(open): Ghost<Set<int>>) -> (r: Result<(), CompileError>)
        requires
            old(self)@.inv(open),
        ensures
            match r {
                Ok(()) => {
                    &&& old(self)@.seal() == Ok::<CompilerView, CompileError>(final(self)@)
                    &&& final(self)@.inv(open)
                    &&& final(self)@.keeps_pools(old(self)@)
                    &&& final(self)@.follows(old(self)@)
                    &&& open == Set::<int>::empty() && old(self)@.cur().continues.len() == 0
                        && old(self)@.cur().breaks.len() == 0
                        ==> final(self)@.cur().chunk().jumps_valid()
                },
                Err(e) => old(self)@.seal() == Err::<CompilerView, CompileError>(e),
            },
    {
        match self.emit_with_constant(Op::LoadConstant, Value::Nil, Ghost(open)) {
            Ok(()) => {},
            Err(e) => {
                return Err(e);
            },
        }
        let ghost mid = self@;
        self.emit_op(Op::Return, Ghost(open));
        proof {
            self@.lemma_follows_trans(mid, old(self)@);
            if open == Set::<int>::empty() && old(self)@.cur().continues.len() == 0
                && old(self)@.cur().breaks.len() == 0 {
                let c = mid.cur();
                assert(c.pending() =~= Set::empty());
                assert(open + c.pending() =~= Set::empty());
                let bytes = seq![Op::Return.byte()];
                c.chunk().lemma_takes(Op::Return, bytes);
                c.chunk().lemma_append_seals(bytes);
            }
        }
        Ok(())
    }

    /// Ends the function at hand and makes a closure of it in the function
    /// around it.
    fn leave_function(&mut self, Ghost(open): Ghost<Set<int>>) -> (r: Result<(), CompileError>)
        requires
            old(self).ctxs.len() >= 2,
            old(self)@.all_bounded(),
            old(self)@.ctxs[old(self)@.ctxs.len() - 2].chunk().tidy(
                open + old(self)@.ctxs[old(self)@.ctxs.len() - 2].pending(),
            ),
            old(self)@.ctxs[old(self)@.ctxs.len() - 2].absolute(),
        ensures
            match r {
                Ok(()) => {
                    &&& old(self)@.leave_function() == Ok::<CompilerView, CompileError>(
                        final(self)@,
                    )
                    &&& final(self)@.inv(open)
                    &&& crate::layout::sealed(old(self)@.cur().function)
                        ==> final(self)@.keeps_pools(old(self)@)
                    &&& final(self)@.follows(
                        CompilerView { ctxs: old(self)@.ctxs.drop_last() },
                    )
                },
                Err(e) => old(self)@.leave_function() == Err::<CompilerView, CompileError>(e),
            },
    {
        let ghost parent = CompilerView { ctxs: old(self)@.ctxs.drop_last() };
        let ghost sub_view = self@.cur();
        let sub = self.ctxs.pop().unwrap();
        proof {
            assert(self@.ctxs =~= parent.ctxs);
            assert(sub@ == sub_view);
            assert forall|i: int| 0 <= i < parent.ctxs.len() implies (
            #[trigger] parent.ctxs[i]).bounded() by {
                assert(old(self)@.ctxs[i].bounded());
            }
            assert(parent.keeps_pools(old(self)@)) by {
                reveal(CompilerView::pools_sealed);
                if old(self)@.pools_sealed() {
                    assert forall|i: int| 0 <= i < parent.ctxs.len() implies crate::layout::pool_sealed(
                        (#[trigger] parent.ctxs[i]).chunk().constants,
                    ) by {
                        assert(parent.ctxs[i] == old(self)@.ctxs[i]);
                        assert(crate::layout::pool_sealed(old(self)@.ctxs[i].chunk().constants));
                    }
                }
            }
        }
        let function = sub.function;
        let upvalues = sub.upvalues;
        let n = upvalues.len();
        let k = match self.add_constant(Value::Function(function), Ghost(open)) {
            Ok(k) => k,
            Err(e) => {
                return Err(e);
            },
        };
        let ghost mid = self@;
        let mut bytes: Vec<u8> = vec![Op::MakeClosure.to_u8(), k];
        let mut i: usize = 0;
        while i < n
            invariant
                i <= n,
                n == upvalues.len(),
                n <= 256,
                bytes@ == seq![Op::MakeClosure.byte(), k] + capture_bytes(upvalues@, i as nat),
            decreases n - i,
        {
            let (flag, index): (u8, usize) = match upvalues[i] {
                Upvalue::Local(x) => (1, x),
                Upvalue::NonLocal(x) => (0, x),
            };
            bytes.push(flag);
            bytes.push(index as u8);
            proof {
                assert(bytes@ =~= seq![Op::MakeClosure.byte(), k] + capture_bytes(
                    upvalues@,
                    (i + 1) as nat,
                ));
            }
            i += 1;
        }
        proof {
            lemma_capture_bytes_len(upvalues@, n as nat);
            let c = mid.cur().chunk();
            assert(c.constants[k as int] == ValueView::Function(sub_view.function));
            c.lemma_takes_closure(k, bytes@);
        }
        self.emit(bytes, Ghost(open));
        proof {
            self@.lemma_follows_trans(mid, parent);
        }
        Ok(())
    }
}

} // verus!

verus! {

/// The opcode that stands for a call of `name`, if `name` is one of the
/// five operators that the compiler knows.
pub fn intrinsic(name: &String) -> (r: Option<Op>)
    ensures
        r == intrinsic_spec(name@),
{
    let s = name.as_str();
    let n = s.unicode_len();
    if n == 1 {
        let c = s.get_char(0);
        if c == '+' {
            assert(name@ =~= seq!['+']);
            Some(Op::Add)
        } else if c == '-' {
            assert(name@ =~= seq!['-']);
            Some(Op::Subtract)
        } else if c == '*' {
            assert(name@ =~= seq!['*']);
            Some(Op::Multiply)
        } else if c == '/' {
            assert(name@ =~= seq!['/']);
            Some(Op::Divide)
        } else {
            assert(seq!['+'][0] != c && seq!['-'][0] != c && seq!['*'][0] != c && seq!['/'][0]
                != c);
            None
        }
    } else if n == 2 {
        if s.get_char(0) == '=' && s.get_char(1) == '=' {
            assert(name@ =~= seq!['=', '=']);
            Some(Op::IsEqual)
        } else {
            assert(seq!['=', '='][0] == '=' && seq!['=', '='][1] == '=');
            None
        }
    } else {
        None
    }
}

/// The opcode that a call of `x` compiles to without a call, if `x` is
/// the name of one of the five operators.
pub fn try_arithmetic_op(x: &Core) -> (r: Option<Op>)
    ensures
        r == try_arithmetic_op_spec(x@),
{
    match x {
        Core::Get(name) => intrinsic(name),
        _ => None,
    }
}

impl Compiler {
    /// Compiles `expr` into the function at hand, with the jumps at `open`
    /// waiting for their target.
    fn compile_node(&mut self, expr: &Core, Ghost(open): Ghost<Set<int>>) -> (r: Result<
        (),
        CompileError,
    >)
        requires
            old(self)@.inv(open),
        ensures
            match r {
                Ok(()) => {
                    &&& old(self)@.compile(expr@) == Ok::<CompilerView, CompileError>(final(self)@)
                    &&& final(self)@.inv(open)
                    &&& crate::layout::literals_sealed(expr@)
                        ==> final(self)@.keeps_pools(old(self)@)
                    &&& final(self)@.follows(old(self)@)
                },
                Err(e) => old(self)@.compile(expr@) == Err::<CompilerView, CompileError>(e),
            },
        decreases expr, 1nat,
    {
        match expr {
            Core::Lit(x) => self.emit_with_constant(Op::LoadConstant, x.clone(), Ghost(open)),
            Core::Get(name) => self.compile_get(name, Ghost(open)),
            Core::Assign(_, _) => self.compile_assignment(expr, Ghost(open)),
            Core::Let(_, _) => self.compile_let(expr, Ghost(open)),
            Core::Return(_) => self.compile_return(expr, Ghost(open)),
            Core::Block(_) => self.compile_block(expr, Ghost(open)),
            Core::Call(_, _) => self.compile_call(expr, Ghost(open)),
            Core::If(_, _, _) => self.compile_if(expr, Ghost(open)),
            Core::Loop(_) => self.compile_loop(expr, Ghost(open)),
            Core::Continue => self.jump_out(true, Ghost(open)),
            Core::Break => self.jump_out(false, Ghost(open)),
            Core::Lambda(_, _) => self.compile_lambda(expr, Ghost(open)),
        }
    }

    fn compile_assignment(&mut self, expr: &Core, Ghost(open): Ghost<Set<int>>) -> (r: Result<
        (),
        CompileError,
    >)
        requires
            old(self)@.inv(open),
            expr is Assign,
        ensures
            match r {
                Ok(()) => {
                    &&& old(self)@.compile(expr@) == Ok::<CompilerView, CompileError>(final(self)@)
                    &&& final(self)@.inv(open)
                    &&& crate::layout::literals_sealed(expr@)
                        ==> final(self)@.keeps_pools(old(self)@)
                    &&& final(self)@.follows(old(self)@)
                },
                Err(e) => old(self)@.compile(expr@) == Err::<CompilerView, CompileError>(e),
            },
        decreases expr, 0nat,
    {
        match expr {
            Core::Assign(name, value) => {
                match self.compile_node(&**value, Ghost(open)) {
                    Ok(()) => {},
                    Err(e) => {
                        return Err(e);
                    },
                }
                let ghost mid = self@;
                let r = self.compile_assign(name, Ghost(open));
                proof {
                    if r is Ok {
                        self@.lemma_follows_trans(mid, old(self)@);
                    }
                }
                r
            },
            _ => Ok(()),
        }
    }

    fn compile_let(&mut self, expr: &Core, Ghost(open): Ghost<Set<int>>) -> (r: Result<
        (),
        CompileError,
    >)
        requires
            old(self)@.inv(open),
            expr is Let,
        ensures
            match r {
                Ok(()) => {
                    &&& old(self)@.compile(expr@) == Ok::<CompilerView, CompileError>(final(self)@)
                    &&& final(self)@.inv(open)
                    &&& crate::layout::literals_sealed(expr@)
                        ==> final(self)@.keeps_pools(old(self)@)
                    &&& final(self)@.follows(old(self)@)
                },
                Err(e) => old(self)@.compile(expr@) == Err::<CompilerView, CompileError>(e),
            },
        decreases expr, 0nat,
    {
        match expr {
            Core::Let(name, value) => {
                match self.declare_var(name, Ghost(open)) {
                    Ok(()) => {},
                    Err(e) => {
                        return Err(e);
                    },
                }
                let ghost s1 = self@;
                match self.compile_node(&**value, Ghost(open)) {
                    Ok(()) => {},
                    Err(e) => {
                        return Err(e);
                    },
                }
                let ghost s2 = self@;
                let r = self.define_var(name, Ghost(open));
                proof {
                    if r is Ok {
                        s2.lemma_follows_trans(s1, old(self)@);
                        self@.lemma_follows_trans(s2, old(self)@);
                    }
                }
                r
            },
            _ => Ok(()),
        }
    }

    fn compile_return(&mut self, expr: &Core, Ghost(open): Ghost<Set<int>>) -> (r: Result<
        (),
        CompileError,
    >)
        requires
            old(self)@.inv(open),
            expr is Return,
        ensures
            match r {
                Ok(()) => {
                    &&& old(self)@.compile(expr@) == Ok::<CompilerView, CompileError>(final(self)@)
                    &&& final(self)@.inv(open)
                    &&& crate::layout::literals_sealed(expr@)
                        ==> final(self)@.keeps_pools(old(self)@)
                    &&& final(self)@.follows(old(self)@)
                },
                Err(e) => old(self)@.compile(expr@) == Err::<CompilerView, CompileError>(e),
            },
        decreases expr, 0nat,
    {
        match expr {
            Core::Return(x) => {
                match self.compile_node(&**x, Ghost(open)) {
                    Ok(()) => {},
                    Err(e) => {
                        return Err(e);
                    },
                }
                let ghost mid = self@;
                self.emit_op(Op::Return, Ghost(open));
                proof {
                    self@.lemma_follows_trans(mid, old(self)@);
                }
                Ok(())
            },
            _ => Ok(()),
        }
    }

    fn compile_block(&mut self, expr: &Core, Ghost(open): Ghost<Set<int>>) -> (r: Result<
        (),
        CompileError,
    >)
        requires
            old(self)@.inv(open),
            expr is Block,
        ensures
            match r {
                Ok(()) => {
                    &&& old(self)@.compile(expr@) == Ok::<CompilerView, CompileError>(final(self)@)
                    &&& final(self)@.inv(open)
                    &&& crate::layout::literals_sealed(expr@)
                        ==> final(self)@.keeps_pools(old(self)@)
                    &&& final(self)@.follows(old(self)@)
                },
                Err(e) => old(self)@.compile(expr@) == Err::<CompilerView, CompileError>(e),
            },
        decreases expr, 0nat,
    {
        match expr {
            Core::Block(xs) => {
                match self.begin_scope(Ghost(open)) {
                    Ok(()) => {},
                    Err(e) => {
                        return Err(e);
                    },
                }
                let ghost s1 = self@;
                match self.compile_all(xs, Ghost(open)) {
                    Ok(()) => {},
                    Err(e) => {
                        return Err(e);
                    },
                }
                let ghost s2 = self@;
                self.end_scope(Ghost(open));
                proof {
                    s2.lemma_extends_trans(s1, old(self)@);
                    self@.lemma_extends_trans(s2, old(self)@);
                }
                Ok(())
            },
            _ => Ok(()),
        }
    }

    fn compile_call(&mut self, expr: &Core, Ghost(open): Ghost<Set<int>>) -> (r: Result<
        (),
        CompileError,
    >)
        requires
            old(self)@.inv(open),
            expr is Call,
        ensures
            match r {
                Ok(()) => {
                    &&& old(self)@.compile(expr@) == Ok::<CompilerView, CompileError>(final(self)@)
                    &&& final(self)@.inv(open)
                    &&& crate::layout::literals_sealed(expr@)
                        ==> final(self)@.keeps_pools(old(self)@)
                    &&& final(self)@.follows(old(self)@)
                },
                Err(e) => old(self)@.compile(expr@) == Err::<CompilerView, CompileError>(e),
            },
        decreases expr, 0nat,
    {
        match expr {
            Core::Call(callee, args) => {
                match self.compile_all(args, Ghost(open)) {
                    Ok(()) => {},
                    Err(e) => {
                        return Err(e);
                    },
                }
                let ghost s1 = self@;
                match try_arithmetic_op(&**callee) {
                    Some(op) => {
                        self.emit_op(op, Ghost(open));
                        proof {
                            self@.lemma_follows_trans(s1, old(self)@);
                        }
                        Ok(())
                    },
                    None => {
                        match self.compile_node(&**callee, Ghost(open)) {
                            Ok(()) => {},
                            Err(e) => {
                                return Err(e);
                            },
                        }
                        let ghost s2 = self@;
                        if args.len() > 255 {
                            return Err(CompileError::TooManyArguments);
                        }
                        self.emit_op_arg(Op::Call, args.len() as u8, Ghost(open));
                        proof {
                            s2.lemma_follows_trans(s1, old(self)@);
                            self@.lemma_follows_trans(s2, old(self)@);
                        }
                        Ok(())
                    },
                }
            },
            _ => Ok(()),
        }
    }

    #[verifier::rlimit(60)]
    fn compile_if(&mut self, expr: &Core, Ghost(open): Ghost<Set<int>>) -> (r: Result<
        (),
        CompileError,
    >)
        requires
            old(self)@.inv(open),
            expr is If,
        ensures
            match r {
                Ok(()) => {
                    &&& old(self)@.compile(expr@) == Ok::<CompilerView, CompileError>(final(self)@)
                    &&& final(self)@.inv(open)
                    &&& crate::layout::literals_sealed(expr@)
                        ==> final(self)@.keeps_pools(old(self)@)
                    &&& final(self)@.follows(old(self)@)
                },
                Err(e) => old(self)@.compile(expr@) == Err::<CompilerView, CompileError>(e),
            },
        decreases expr, 0nat,
    {
        match expr {
            Core::If(c, t, e) => {
                match self.compile_node(&**c, Ghost(open)) {
                    Ok(()) => {},
                    Err(e) => {
                        return Err(e);
                    },
                }
                let ghost s1 = self@;
                let j1 = self.emit_jump(Op::JumpIfFalse, Ghost(open));
                let ghost s1j = self@;
                let ghost open1 = open.insert(j1 as int);
                match self.compile_node(&**t, Ghost(open1)) {
                    Ok(()) => {},
                    Err(e) => {
                        return Err(e);
                    },
                }
                let ghost s2 = self@;
                let j2 = self.emit_jump(Op::Jump, Ghost(open1));
                let ghost s2j = self@;
                let ghost open12 = open1.insert(j2 as int);
                let ghost open2 = open.insert(j2 as int);
                proof {
                    // the first jump is where it was emitted
                    assert(s1j.cur().chunk().code[j1 as int] == Op::JumpIfFalse.byte());
                    s1j.cur().chunk().lemma_tidy_open(open1 + s1j.cur().pending(), j1 as int);
                    s1j.cur().chunk().lemma_grows_trans(s2.cur().chunk(), s2j.cur().chunk());
                    s1j.cur().chunk().lemma_grows_start(s2j.cur().chunk(), j1 as int);
                }
                match self.land(j1, Ghost(open12), Ghost(open2)) {
                    Ok(()) => {},
                    Err(e) => {
                        return Err(e);
                    },
                }
                let ghost s3 = self@;
                match self.compile_node(&**e, Ghost(open2)) {
                    Ok(()) => {},
                    Err(e) => {
                        return Err(e);
                    },
                }
                let ghost s4 = self@;
                proof {
                    assert(s2j.cur().chunk().code[j2 as int] == Op::Jump.byte());
                    s2j.cur().chunk().lemma_tidy_open(open12 + s2j.cur().pending(), j2 as int);
                    s2j.cur().chunk().lemma_grows_trans(s3.cur().chunk(), s4.cur().chunk());
                    s2j.cur().chunk().lemma_grows_start(s4.cur().chunk(), j2 as int);
                }
                let r = self.land(j2, Ghost(open2), Ghost(open));
                proof {
                    if r is Ok {
                        s1j.lemma_follows_trans(s1, old(self)@);
                        s2.lemma_follows_trans(s1j, old(self)@);
                        s2j.lemma_follows_trans(s2, old(self)@);
                        s3.lemma_follows_trans(s2j, old(self)@);
                        s4.lemma_follows_trans(s3, old(self)@);
                        self@.lemma_follows_trans(s4, old(self)@);
                    }
                }
                r
            },
            _ => Ok(()),
        }
    }

    fn compile_loop(&mut self, expr: &Core, Ghost(open): Ghost<Set<int>>) -> (r: Result<
        (),
        CompileError,
    >)
        requires
            old(self)@.inv(open),
            expr is Loop,
        ensures
            match r {
                Ok(()) => {
                    &&& old(self)@.compile(expr@) == Ok::<CompilerView, CompileError>(final(self)@)
                    &&& final(self)@.inv(open)
                    &&& crate::layout::literals_sealed(expr@)
                        ==> final(self)@.keeps_pools(old(self)@)
                    &&& final(self)@.follows(old(self)@)
                },
                Err(e) => old(self)@.compile(expr@) == Err::<CompilerView, CompileError>(e),
            },
        decreases expr, 0nat,
    {
        match expr {
            Core::Loop(body) => {
                let cur = self.ctxs.len() - 1;
                let start = self.ctxs[cur].function.chunk.code.len();
                proof {
                    let c = self@.cur();
                    c.chunk().lemma_tidy_end(open + c.pending());
                }
                self.enter_loop(Ghost(open));
                let ghost s1 = self@;
                match self.compile_node(&**body, Ghost(open)) {
                    Ok(()) => {},
                    Err(e) => {
                        return Err(e);
                    },
                }
                let ghost s2 = self@;
                proof {
                    s1.cur().chunk().lemma_grows_start(s2.cur().chunk(), start as int);
                }
                let r = self.leave_loop(start, Ghost(open));
                proof {
                    if r is Ok {
                        s2.lemma_extends_trans(s1, old(self)@);
                        self@.lemma_extends_trans(s2, old(self)@);
                    }
                }
                r
            },
            _ => Ok(()),
        }
    }

    fn compile_lambda(&mut self, expr: &Core, Ghost(open): Ghost<Set<int>>) -> (r: Result<
        (),
        CompileError,
    >)
        requires
            old(self)@.inv(open),
            expr is Lambda,
        ensures
            match r {
                Ok(()) => {
                    &&& old(self)@.compile(expr@) == Ok::<CompilerView, CompileError>(final(self)@)
                    &&& final(self)@.inv(open)
                    &&& crate::layout::literals_sealed(expr@)
                        ==> final(self)@.keeps_pools(old(self)@)
                    &&& final(self)@.follows(old(self)@)
                },
                Err(e) => old(self)@.compile(expr@) == Err::<CompilerView, CompileError>(e),
            },
        decreases expr, 0nat,
    {
        match expr {
            Core::Lambda(params, body) => {
                match self.enter_function(params) {
                    Ok(()) => {},
                    Err(e) => {
                        return Err(e);
                    },
                }
                let ghost s1 = self@;
                match self.compile_node(&**body, Ghost(Set::empty())) {
                    Ok(()) => {},
                    Err(e) => {
                        return Err(e);
                    },
                }
                let ghost s2 = self@;
                match self.seal(Ghost(Set::empty())) {
                    Ok(()) => {},
                    Err(e) => {
                        return Err(e);
                    },
                }
                let ghost s3 = self@;
                proof {
                    s3.lemma_follows_trans(s2, s1);
                    let at = old(self)@.ctxs.len() - 1;
                    assert(s1.ctxs[at] == old(self)@.cur());
                    assert(s3.ctxs[at].kept_from(s1.ctxs[at]));
                    if crate::layout::literals_sealed(expr@) && old(self)@.pools_sealed() {
                        // the function that is finished is whole
                        assert(s3.pools_sealed());
                        assert(crate::layout::pool_sealed(s3.cur().chunk().constants)) by {
                            reveal(CompilerView::pools_sealed);
                        }
                        let c = s3.cur();
                        assert(c.pending() =~= Set::empty());
                        assert(Set::<int>::empty() + c.pending() =~= Set::empty());
                        c.chunk().lemma_tidy_end(Set::empty());
                        assert(crate::layout::sealed(c.function));
                    }
                }
                let r = self.leave_function(Ghost(open));
                proof {
                    if r is Ok {
                        let parent = CompilerView { ctxs: s3.ctxs.drop_last() };
                        assert(parent.extends(old(self)@)) by {
                            old(self)@.cur().chunk().lemma_grows_refl();
                            assert forall|i: int| 0 <= i < old(self)@.ctxs.len() - 1 implies (
                            #[trigger] parent.ctxs[i]).kept_from(old(self)@.ctxs[i]) by {
                                assert(s3.ctxs[i].kept_from(s1.ctxs[i]));
                                assert(s1.ctxs[i] == old(self)@.ctxs[i]);
                            }
                        }
                        self@.lemma_extends_trans(parent, old(self)@);
                    }
                }
                r
            },
            _ => Ok(()),
        }
    }

    /// Compiles the expressions of `xs`, one after the other.
    fn compile_all(&mut self, xs: &Vec<Core>, Ghost(open): Ghost<Set<int>>) -> (r: Result<
        (),
        CompileError,
    >)
        requires
            old(self)@.inv(open),
        ensures
            match r {
                Ok(()) => {
                    &&& old(self)@.compile_all(crate::common::cores_view(xs@), 0) == Ok::<
                        CompilerView,
                        CompileError,
                    >(final(self)@)
                    &&& final(self)@.inv(open)
                    &&& crate::layout::all_literals_sealed(crate::common::cores_view(xs@))
                        ==> final(self)@.keeps_pools(old(self)@)
                    &&& final(self)@.follows(old(self)@)
                },
                Err(e) => old(self)@.compile_all(crate::common::cores_view(xs@), 0) == Err::<
                    CompilerView,
                    CompileError,
                >(e),
            },
        decreases xs, 0nat,
    {
        let ghost views = crate::common::cores_view(xs@);
        let mut i: usize = 0;
        proof {
            self@.lemma_follows_refl();
        }
        while i < xs.len()
            invariant
                i <= xs.len(),
                views == crate::common::cores_view(xs@),
                self@.inv(open),
                self@.follows(old(self)@),
                crate::layout::all_literals_sealed(views) ==> self@.keeps_pools(old(self)@),
                self@.compile_all(views, i as int) == old(self)@.compile_all(views, 0),
            decreases xs.len() - i,
        {
            let ghost before = self@;
            match self.compile_node(&xs[i], Ghost(open)) {
                Ok(()) => {},
                Err(e) => {
                    return Err(e);
                },
            }
            proof {
                self@.lemma_follows_trans(before, old(self)@);
            }
            i += 1;
        }
        Ok(())
    }
}

} // verus!

verus! {

impl Compiler {
    /// Compiles `expr` into the program.
    ///
    /// A name is resolved as a local, else as a captured variable, else
    /// as a global. The constants that the pool held keep their indices.
    /// The code stays a whole number of instructions, and every jump that
    /// `expr` needs has its target when this returns.
    pub fn compile(&mut self, expr: &Core) -> (r: Result<(), CompileError>)
        requires
            old(self).wf(),
        ensures
            match r {
                Ok(()) => {
                    &&& old(self)@.compile(expr@) == Ok::<CompilerView, CompileError>(final(self)@)
                    &&& final(self).wf()
                    &&& final(self)@.follows(old(self)@)
                    &&& forall|k: int|
                        0 <= k < old(self)@.cur().chunk().constants.len()
                            ==> #[trigger] final(self)@.cur().chunk().constants[k]
                            == old(self)@.cur().chunk().constants[k]
                    &&& crate::layout::literals_sealed(expr@) ==> final(self)@.keeps_pools(
                        old(self)@,
                    )
                },
                Err(e) => old(self)@.compile(expr@) == Err::<CompilerView, CompileError>(e),
            },
    {
        let r = self.compile_node(expr, Ghost(Set::empty()));
        proof {
            if r is Ok {
                assert forall|k: int| 0 <= k < old(self)@.cur().chunk().constants.len() implies
                #[trigger] self@.cur().chunk().constants[k] == old(self)@.cur().chunk().constants[k] by {
                    old(self)@.cur().chunk().lemma_grows_constant(self@.cur().chunk(), k);
                }
            }
        }
        r
    }

    /// Ends the program and returns its function: the code compiled so
    /// far, then a return of nothing for the case that control comes this
    /// far. In that function every jump goes to the start of an
    /// instruction of its chunk.
    pub fn done(&mut self) -> (r: Result<Function, CompileError>)
        requires
            old(self).wf(),
        ensures
            match r {
                Ok(f) => {
                    &&& old(self)@.seal() == Ok::<CompilerView, CompileError>(final(self)@)
                    &&& f@ == final(self)@.cur().function
                    &&& final(self).wf()
                    &&& final(self)@.follows(old(self)@)
                    &&& f@.chunk.jumps_valid()
                    &&& f@.chunk.is_start(f@.chunk.code.len() as int)
                    &&& f@.arity == 0
                    &&& final(self)@.keeps_pools(old(self)@)
                    &&& old(self)@.pools_sealed() ==> crate::layout::sealed(f@)
                },
                Err(e) => old(self)@.seal() == Err::<CompilerView, CompileError>(e),
            },
    {
        match self.seal(Ghost(Set::empty())) {
            Ok(()) => {},
            Err(e) => {
                return Err(e);
            },
        }
        proof {
            let c = self@.cur();
            assert(c.pending() =~= Set::empty());
            assert(Set::<int>::empty() + c.pending() =~= Set::empty());
            c.chunk().lemma_tidy_end(Set::empty());
            if old(self)@.pools_sealed() {
                assert(crate::layout::pool_sealed(c.chunk().constants)) by {
                    reveal(CompilerView::pools_sealed);
                }
            }
        }
        Ok(self.ctxs[0].function.clone())
    }
}

} // verus!
