//! From tokens to a function that the machine can run: the two phases of
//! the parser and the compiler, one after the other.

use crate::common::{Core, CoreView};
use crate::compiler::{CompileError, Compiler, CompilerView, CCtxView};
use crate::layout::{literals_sealed, sealed};
use crate::lexer::{tokens_view, Tk, TkView};
use crate::parser::{
    exprs_view, list_spec, parse_seq, ExprView, LowerParser, ParseError, ParserContext,
    ParserContextView,
};
use crate::value::{Function, FunctionView};
use vstd::prelude::*;

verus! {

/// Why a program cannot be run.
#[derive(Debug, Clone, Copy, PartialEq, Eq, Structural)]
pub enum BuildError {
    Parse(ParseError),
    Compile(CompileError),
}

/// What the tokens `tokens` of a whole text mean: the block that they
/// read as, taken for one expression.
pub open spec fn read_spec(tokens: Seq<TkView>, ctx: ParserContextView) -> Result<
    CoreView,
    ParseError,
> {
    match list_spec(tokens, 0, TkView::Semicolon, TkView::Eof, true, Seq::empty(), Seq::empty()) {
        Err(e) => Err(e),
        Ok((expr, _)) => ctx.parse_seq(seq![expr]),
    }
}

/// The function that the program `core` compiles to: `core` compiled
/// into an empty program, then the end of every function.
pub open spec fn build_spec(core: CoreView) -> Result<FunctionView, CompileError> {
    match (CompilerView { ctxs: seq![CCtxView::fresh()] }).compile(core) {
        Err(e) => Err(e),
        Ok(s) => match s.seal() {
            Err(e) => Err(e),
            Ok(t) => Ok(t.cur().function),
        },
    }
}

/// The function that the tokens of a whole text compile to.
pub open spec fn assemble_spec(tokens: Seq<TkView>, ctx: ParserContextView) -> Result<
    FunctionView,
    BuildError,
> {
    match read_spec(tokens, ctx) {
        Err(e) => Err(BuildError::Parse(e)),
        Ok(core) => match build_spec(core) {
            Err(e) => Err(BuildError::Compile(e)),
            Ok(f) => Ok(f),
        },
    }
}

/// Parses the tokens of a whole text.
pub fn read(tokens: Vec<Tk>, ctx: &ParserContext) -> (r: Result<Core, ParseError>)
    ensures
        match r {
            Ok(core) => read_spec(tokens_view(tokens@), ctx@) == Ok::<CoreView, ParseError>(core@),
            Err(e) => read_spec(tokens_view(tokens@), ctx@) == Err::<CoreView, ParseError>(e),
        },
        r matches Ok(core) ==> literals_sealed(core@),
{
    let mut lower = LowerParser::new(tokens);
    let expr = match lower.parse() {
        Ok(expr) => expr,
        Err(e) => {
            return Err(e);
        },
    };
    let mut one = Vec::new();
    let ghost x = expr@;
    one.push(expr);
    proof {
        assert(exprs_view(one@) =~= seq![x]);
    }
    parse_seq(ctx, one)
}

/// Compiles a whole program. In the function that comes of it, and in
/// every function within it, every jump goes to the start of an
/// instruction of its own chunk, as long as the program has no function
/// for a literal that is not so itself.
pub fn build(core: &Core) -> (r: Result<Function, CompileError>)
    ensures
        match r {
            Ok(f) => build_spec(core@) == Ok::<FunctionView, CompileError>(f@),
            Err(e) => build_spec(core@) == Err::<FunctionView, CompileError>(e),
        },
        r matches Ok(f) ==> f@.arity == 0 && f@.chunk.jumps_valid(),
        r matches Ok(f) ==> (literals_sealed(core@) ==> sealed(f@)),
{
    let mut compiler = Compiler::new();
    match compiler.compile(core) {
        Ok(()) => {},
        Err(e) => {
            return Err(e);
        },
    }
    compiler.done()
}

/// Parses and compiles the tokens of a whole text. In the function that
/// comes of it, and in every function within it, every jump goes to the
/// start of an instruction of its own chunk.
pub fn assemble(tokens: Vec<Tk>, ctx: &ParserContext) -> (r: Result<Function, BuildError>)
    ensures
        match r {
            Ok(f) => assemble_spec(tokens_view(tokens@), ctx@) == Ok::<FunctionView, BuildError>(
                f@,
            ),
            Err(e) => assemble_spec(tokens_view(tokens@), ctx@) == Err::<
                FunctionView,
                BuildError,
            >(e),
        },
        r matches Ok(f) ==> f@.arity == 0 && sealed(f@),
{
    let core = match read(tokens, ctx) {
        Ok(core) => core,
        Err(e) => {
            return Err(BuildError::Parse(e));
        },
    };
    match build(&core) {
        Ok(f) => Ok(f),
        Err(e) => Err(BuildError::Compile(e)),
    }
}

} // verus!
