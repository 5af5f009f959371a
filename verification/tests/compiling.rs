use tinylang::common::{Core, Op};
use tinylang::compiler::{intrinsic, try_arithmetic_op, CCtx, CompileError, Compiler, Upvalue};
use tinylang::lexer::lex;
use tinylang::parser::ParserContext;
use tinylang::program::{assemble, build, BuildError};
use tinylang::value::{Function, Value};

fn get(name: &str) -> Core {
    Core::Get(name.to_string())
}

fn lit(i: isize) -> Core {
    Core::Lit(Value::Int(i))
}

fn call(callee: Core, args: Vec<Core>) -> Core {
    Core::Call(Box::new(callee), args)
}

fn lambda(params: &[&str], body: Core) -> Core {
    Core::Lambda(params.iter().map(|p| p.to_string()).collect(), Box::new(body))
}

fn b(op: Op) -> u8 {
    op.to_u8()
}

/// The code and the constants, written out, of the program after `core`.
fn compiled(core: &Core) -> (Vec<u8>, Vec<String>) {
    let mut c = Compiler::new();
    c.compile(core).unwrap();
    let chunk = &c.ctxs[0].function.chunk;
    (chunk.code.clone(), chunk.constants.iter().map(|v| v.to_text()).collect())
}

fn error_of(core: &Core) -> CompileError {
    let mut c = Compiler::new();
    c.compile(core).unwrap_err()
}

fn function_at(f: &Function, k: usize) -> &Function {
    match &f.chunk.constants[k] {
        Value::Function(g) => g,
        other => panic!("not a function: {:?}", other),
    }
}

/// The starts of the instructions of `f`, if its code is a whole number
/// of instructions.
fn starts(f: &Function) -> Option<Vec<usize>> {
    let code = &f.chunk.code;
    let mut at = 0;
    let mut found = vec![];
    while at < code.len() {
        found.push(at);
        let op = Op::try_from_u8(code[at])?;
        let mut width = op.width();
        if op == Op::MakeClosure {
            match f.chunk.constants.get(*code.get(at + 1)? as usize)? {
                Value::Function(g) => width += 2 * g.upvalue_count,
                _ => return None,
            }
        }
        at += width;
    }
    if at == code.len() {
        Some(found)
    } else {
        None
    }
}

/// Whether every jump of `f`, and of the functions within it, goes to the
/// start of an instruction of its own chunk.
fn jumps_are_valid(f: &Function) -> bool {
    let Some(found) = starts(f) else { return false };
    let code = &f.chunk.code;
    for &at in &found {
        let op = Op::try_from_u8(code[at]).unwrap();
        let operand = || (code[at + 1] as usize) * 256 + code[at + 2] as usize;
        let target = match op {
            Op::JumpIfFalse | Op::Jump => at + operand(),
            Op::AbsJump => operand(),
            _ => continue,
        };
        if !found.contains(&target) {
            return false;
        }
    }
    f.chunk.constants.iter().all(|v| match v {
        Value::Function(g) => jumps_are_valid(g),
        _ => true,
    })
}

#[test]
fn new_compiler_has_one_empty_function() {
    let c = Compiler::new();
    assert_eq!(c.ctxs.len(), 1);
    assert_eq!(c.ctxs[0].function.arity, 0);
    assert_eq!(c.ctxs[0].function.upvalue_count, 0);
    assert!(c.ctxs[0].function.chunk.code.is_empty());
    assert!(c.ctxs[0].function.chunk.constants.is_empty());
    let ctx = CCtx::new();
    assert!(ctx.function.chunk.code.is_empty());
}

#[test]
fn literal_loads_a_new_constant() {
    assert_eq!(compiled(&lit(7)), (vec![b(Op::LoadConstant), 0], vec!["7".to_string()]));
    // the same literal twice is two constants
    let (code, constants) = compiled(&Core::Block(vec![lit(7), lit(7)]));
    assert_eq!(code, vec![b(Op::LoadConstant), 0, b(Op::LoadConstant), 1]);
    assert_eq!(constants, vec!["7", "7"]);
}

#[test]
fn global_is_named_by_a_constant() {
    assert_eq!(compiled(&get("x")), (vec![b(Op::GetGlobal), 0], vec!["x".to_string()]));
    let (code, constants) = compiled(&Core::Let("x".to_string(), Box::new(lit(1))));
    assert_eq!(code, vec![b(Op::LoadConstant), 0, b(Op::SetGlobal), 1]);
    assert_eq!(constants, vec!["1", "x"]);
}

#[test]
fn assignment_to_a_global_needs_its_name_in_the_pool() {
    let mut c = Compiler::new();
    c.compile(&Core::Let("x".to_string(), Box::new(lit(1)))).unwrap();
    c.compile(&Core::Assign("x".to_string(), Box::new(lit(2)))).unwrap();
    assert_eq!(
        c.ctxs[0].function.chunk.code,
        vec![
            b(Op::LoadConstant), 0, b(Op::SetGlobal), 1,
            b(Op::LoadConstant), 2, b(Op::SetGlobal), 1,
        ]
    );
    assert_eq!(
        error_of(&Core::Assign("y".to_string(), Box::new(lit(2)))),
        CompileError::UndefinedVariable
    );
}

#[test]
fn block_declares_locals_and_pops_them() {
    let block = Core::Block(vec![
        Core::Let("a".to_string(), Box::new(lit(1))),
        Core::Let("b".to_string(), Box::new(get("a"))),
        Core::Assign("a".to_string(), Box::new(get("b"))),
    ]);
    let (code, constants) = compiled(&block);
    assert_eq!(
        code,
        vec![
            b(Op::LoadConstant), 0,
            b(Op::GetLocal), 0,
            b(Op::GetLocal), 1, b(Op::SetLocal), 0,
            b(Op::Pop), b(Op::Pop),
        ]
    );
    assert_eq!(constants, vec!["1"]);
}

#[test]
fn local_declared_last_is_the_one_that_a_name_means() {
    let block = Core::Block(vec![
        Core::Let("a".to_string(), Box::new(lit(1))),
        Core::Block(vec![Core::Let("a".to_string(), Box::new(lit(2))), get("a")]),
        get("a"),
    ]);
    let (code, _) = compiled(&block);
    assert_eq!(
        code,
        vec![
            b(Op::LoadConstant), 0,
            b(Op::LoadConstant), 1, b(Op::GetLocal), 1, b(Op::Pop),
            b(Op::GetLocal), 0,
            b(Op::Pop),
        ]
    );
}

#[test]
fn if_jumps_over_its_branches() {
    let (code, _) = compiled(&Core::If(Box::new(lit(1)), Box::new(lit(2)), Box::new(lit(3))));
    assert_eq!(
        code,
        vec![
            b(Op::LoadConstant), 0,
            b(Op::JumpIfFalse), 0, 8,
            b(Op::LoadConstant), 1,
            b(Op::Jump), 0, 5,
            b(Op::LoadConstant), 2,
        ]
    );
}

#[test]
fn loop_jumps_back_and_break_jumps_behind_it() {
    let (code, _) = compiled(&Core::Loop(Box::new(Core::Break)));
    assert_eq!(code, vec![b(Op::AbsJump), 0, 6, b(Op::AbsJump), 0, 0]);
    let (code, _) = compiled(&Core::Loop(Box::new(Core::Continue)));
    assert_eq!(code, vec![b(Op::AbsJump), 0, 0, b(Op::AbsJump), 0, 0]);
    // the inner loop takes its own jumps, the outer one its own
    let nested = Core::Block(vec![
        lit(1),
        Core::Loop(Box::new(Core::Block(vec![
            Core::Loop(Box::new(Core::Break)),
            Core::Continue,
            Core::Break,
        ]))),
    ]);
    let (code, _) = compiled(&nested);
    assert_eq!(
        code,
        vec![
            b(Op::LoadConstant), 0,
            // 2: inner loop
            b(Op::AbsJump), 0, 8,
            b(Op::AbsJump), 0, 2,
            // 8: continue and break of the outer loop
            b(Op::AbsJump), 0, 2,
            b(Op::AbsJump), 0, 17,
            // 14: back to the outer loop
            b(Op::AbsJump), 0, 2,
        ]
    );
}

#[test]
fn break_and_continue_need_a_loop() {
    assert_eq!(error_of(&Core::Break), CompileError::BreakOutsideLoop);
    assert_eq!(error_of(&Core::Continue), CompileError::ContinueOutsideLoop);
    // a loop around the function is none within it
    let through = Core::Loop(Box::new(lambda(&[], Core::Break)));
    assert_eq!(error_of(&through), CompileError::BreakOutsideLoop);
    let through = Core::Loop(Box::new(lambda(&[], Core::Continue)));
    assert_eq!(error_of(&through), CompileError::ContinueOutsideLoop);
}

#[test]
fn operators_compile_to_their_opcode() {
    for (name, op) in [
        ("+", Op::Add), ("-", Op::Subtract), ("*", Op::Multiply), ("/", Op::Divide),
        ("==", Op::IsEqual),
    ] {
        assert_eq!(intrinsic(&name.to_string()), Some(op));
        assert_eq!(try_arithmetic_op(&get(name)), Some(op));
        let (code, constants) = compiled(&call(get(name), vec![lit(1), lit(2)]));
        assert_eq!(code, vec![b(Op::LoadConstant), 0, b(Op::LoadConstant), 1, b(op)]);
        assert_eq!(constants, vec!["1", "2"]);
    }
    for name in ["", "=", "++", "=+", "+ ", "f", "->", "==="] {
        assert_eq!(intrinsic(&name.to_string()), None, "{}", name);
    }
    assert_eq!(try_arithmetic_op(&lit(1)), None);
    assert_eq!(try_arithmetic_op(&call(get("+"), vec![])), None);
}

#[test]
fn call_pushes_the_arguments_then_the_callee() {
    let (code, constants) = compiled(&call(get("f"), vec![lit(1), get("x")]));
    assert_eq!(
        code,
        vec![
            b(Op::LoadConstant), 0,
            b(Op::GetGlobal), 1,
            b(Op::GetGlobal), 2,
            b(Op::Call), 2,
        ]
    );
    assert_eq!(constants, vec!["1", "x", "f"]);
}

#[test]
fn return_compiles_its_value_first() {
    let (code, _) = compiled(&Core::Return(Box::new(lit(1))));
    assert_eq!(code, vec![b(Op::LoadConstant), 0, b(Op::Return)]);
}

#[test]
fn lambda_becomes_a_constant_and_a_closure() {
    let f = build(&lambda(&["x", "y"], get("y"))).unwrap();
    assert_eq!(
        f.chunk.code,
        vec![b(Op::MakeClosure), 0, b(Op::LoadConstant), 1, b(Op::Return)]
    );
    let g = function_at(&f, 0);
    assert_eq!(g.arity, 2);
    assert_eq!(g.upvalue_count, 0);
    assert_eq!(
        g.chunk.code,
        vec![b(Op::GetLocal), 1, b(Op::LoadConstant), 0, b(Op::Return)]
    );
    assert!(matches!(g.chunk.constants[0], Value::Nil));
    assert!(matches!(f.chunk.constants[1], Value::Nil));
}

#[test]
fn captured_variables_are_resolved_through_the_functions_around() {
    // x -> (-> (-> x x))
    let innermost = lambda(&[], Core::Block(vec![get("x"), get("x")]));
    let f = build(&lambda(&["x"], lambda(&[], innermost))).unwrap();
    let outer = function_at(&f, 0);
    assert_eq!(outer.upvalue_count, 0);
    // the middle one captures the local of the outer one
    assert_eq!(
        outer.chunk.code,
        vec![b(Op::MakeClosure), 0, 1, 0, b(Op::LoadConstant), 1, b(Op::Return)]
    );
    let middle = function_at(outer, 0);
    assert_eq!(middle.upvalue_count, 1);
    // the innermost one captures what the middle one has captured
    assert_eq!(
        middle.chunk.code,
        vec![b(Op::MakeClosure), 0, 0, 0, b(Op::LoadConstant), 1, b(Op::Return)]
    );
    let inner = function_at(middle, 0);
    // asked for twice, registered once
    assert_eq!(inner.upvalue_count, 1);
    assert_eq!(
        inner.chunk.code,
        vec![
            b(Op::GetUpvalue), 0, b(Op::GetUpvalue), 0,
            b(Op::LoadConstant), 0, b(Op::Return),
        ]
    );
}

#[test]
fn assignment_to_a_captured_variable() {
    let f = build(&lambda(
        &["x"],
        lambda(&[], Core::Assign("x".to_string(), Box::new(lit(1)))),
    ))
    .unwrap();
    let inner = function_at(function_at(&f, 0), 0);
    assert_eq!(
        inner.chunk.code,
        vec![
            b(Op::LoadConstant), 0, b(Op::SetUpvalue), 0,
            b(Op::LoadConstant), 1, b(Op::Return),
        ]
    );
}

#[test]
fn upvalue_descriptors_compare_by_kind_and_index() {
    assert_eq!(Upvalue::Local(1), Upvalue::Local(1));
    assert_ne!(Upvalue::Local(1), Upvalue::NonLocal(1));
    assert_ne!(Upvalue::Local(1), Upvalue::Local(2));
}

#[test]
fn done_ends_the_program_with_a_return_of_nothing() {
    let mut c = Compiler::new();
    c.compile(&lit(5)).unwrap();
    let f = c.done().unwrap();
    assert_eq!(f.arity, 0);
    assert_eq!(
        f.chunk.code,
        vec![b(Op::LoadConstant), 0, b(Op::LoadConstant), 1, b(Op::Return)]
    );
    assert!(matches!(f.chunk.constants[1], Value::Nil));
    let empty = build(&Core::Block(vec![])).unwrap();
    assert_eq!(empty.chunk.code, vec![b(Op::LoadConstant), 0, b(Op::Return)]);
}

#[test]
fn constants_keep_their_index_while_the_program_grows() {
    let mut c = Compiler::new();
    c.compile(&lit(5)).unwrap();
    c.compile(&get("x")).unwrap();
    let before: Vec<String> =
        c.ctxs[0].function.chunk.constants.iter().map(|v| v.to_text()).collect();
    c.compile(&Core::If(
        Box::new(get("x")),
        Box::new(lambda(&["a"], lit(6))),
        Box::new(Core::Let("y".to_string(), Box::new(lit(7)))),
    ))
    .unwrap();
    let after: Vec<String> =
        c.ctxs[0].function.chunk.constants.iter().map(|v| v.to_text()).collect();
    assert_eq!(before, vec!["5", "x"]);
    assert_eq!(&after[..2], &before[..]);
    assert_eq!(after, vec!["5", "x", "x", "Function", "7", "y"]);
}

#[test]
fn too_many_constants() {
    let fits = Core::Block((0..256).map(|i| lit(i)).collect());
    assert!(Compiler::new().compile(&fits).is_ok());
    let over = Core::Block((0..257).map(|i| lit(i)).collect());
    assert_eq!(error_of(&over), CompileError::TooManyConstants);
    // the end of the program needs a constant as well
    let mut c = Compiler::new();
    c.compile(&fits).unwrap();
    assert_eq!(c.done().unwrap_err(), CompileError::TooManyConstants);
}

#[test]
fn too_many_locals() {
    let names: Vec<String> = (0..257).map(|i| format!("p{}", i)).collect();
    let refs: Vec<&str> = names.iter().map(|s| s.as_str()).collect();
    assert!(Compiler::new().compile(&lambda(&refs[..256], get("p0"))).is_ok());
    assert_eq!(error_of(&lambda(&refs, get("p0"))), CompileError::TooManyLocals);
    // 255 parameters and two declarations
    let body = Core::Block(vec![
        Core::Let("a".to_string(), Box::new(get("p0"))),
        Core::Let("b".to_string(), Box::new(get("p0"))),
    ]);
    assert_eq!(error_of(&lambda(&refs[..255], body)), CompileError::TooManyLocals);
}

#[test]
fn too_many_captured_variables() {
    let names: Vec<String> = (0..256).map(|i| format!("p{}", i)).collect();
    let refs: Vec<&str> = names.iter().map(|s| s.as_str()).collect();
    let all: Vec<Core> = names.iter().map(|n| get(n)).collect();
    let fits = lambda(&refs, lambda(&["q"], lambda(&[], Core::Block(all.clone()))));
    assert!(Compiler::new().compile(&fits).is_ok());
    let mut more = all;
    more.push(get("q"));
    let over = lambda(&refs, lambda(&["q"], lambda(&[], Core::Block(more))));
    assert_eq!(error_of(&over), CompileError::TooManyUpvalues);
}

#[test]
fn too_many_arguments() {
    let fits = lambda(&["x"], call(get("x"), (0..255).map(|_| get("x")).collect()));
    assert!(Compiler::new().compile(&fits).is_ok());
    let over = lambda(&["x"], call(get("x"), (0..256).map(|_| get("x")).collect()));
    assert_eq!(error_of(&over), CompileError::TooManyArguments);
}

#[test]
fn jump_too_far() {
    let long = |n: usize| Core::Block((0..n).map(|_| get("x")).collect());
    // two bytes for each read; with the two jumps, 2 * 32,764 + 6 bytes
    // are the farthest that the first jump goes
    let fits = lambda(
        &["x"],
        Core::If(Box::new(get("x")), Box::new(long(32_764)), Box::new(get("x"))),
    );
    assert!(Compiler::new().compile(&fits).is_ok());
    let over = lambda(
        &["x"],
        Core::If(Box::new(get("x")), Box::new(long(32_765)), Box::new(get("x"))),
    );
    assert_eq!(error_of(&over), CompileError::JumpTooFar);
    let far_loop = lambda(&["x"], Core::Loop(Box::new(long(40_000))));
    assert_eq!(error_of(&far_loop), CompileError::JumpTooFar);
}

#[test]
fn every_jump_goes_to_the_start_of_an_instruction() {
    let ctx = ParserContext::standard();
    let sources = [
        "let f = n -> if (n == 0) then (return 1) else (return (n * (f (n - 1)))); print (f 5);",
        "let f = n -> {let s = 0; loop {if (n == 0) then (return s) else {s = s + n; n = n - 1}}}; print (f 10);",
        "loop {if a then break else continue; loop {break}; x -> loop {if x then (return 1)}}",
        "if a then (if b then c else d) else (loop {if e then break})",
        "",
    ];
    for source in sources {
        let f = assemble(lex(source.to_string()), &ctx).unwrap();
        assert!(jumps_are_valid(&f), "{}", source);
    }
    // the check itself tells a jump into an instruction
    let mut f = assemble(lex(sources[3].to_string()), &ctx).unwrap();
    assert_eq!(f.chunk.code[2], b(Op::JumpIfFalse));
    f.chunk.code[4] += 1;
    assert!(!jumps_are_valid(&f));
}

#[test]
fn assemble_tells_where_it_fails() {
    let ctx = ParserContext::standard();
    assert_eq!(
        assemble(lex("(a".to_string()), &ctx).unwrap_err(),
        BuildError::Parse(tinylang::parser::ParseError::UnexpectedToken)
    );
    assert_eq!(
        assemble(lex("break".to_string()), &ctx).unwrap_err(),
        BuildError::Compile(CompileError::BreakOutsideLoop)
    );
    assert_eq!(
        assemble(lex("x = 1".to_string()), &ctx).unwrap_err(),
        BuildError::Compile(CompileError::UndefinedVariable)
    );
}

#[test]
fn text_of_a_program_compiles_to_these_bytes() {
    let ctx = ParserContext::standard();
    let f = assemble(lex("let a = 1; print (a + 2)".to_string()), &ctx).unwrap();
    assert_eq!(
        f.chunk.code,
        vec![
            b(Op::LoadConstant), 0,
            b(Op::GetLocal), 0, b(Op::LoadConstant), 1, b(Op::Add),
            b(Op::GetGlobal), 2, b(Op::Call), 1,
            b(Op::Pop),
            b(Op::LoadConstant), 3, b(Op::Return),
        ]
    );
}
