use tinylang::common::{Core, Op};
use tinylang::compiler::Compiler;
use tinylang::lexer::lex;
use tinylang::native::FFI;
use tinylang::parser::{float_literals, parse_seq, LowerParser, ParserContext};
use tinylang::value::{Closure, Value};
use tinylang::vm::{Request, RuntimeError, Signal, VMResult, VM};

fn show(v: &Value) -> String {
    match v {
        Value::Float(bits) => format!("{}", f64::from_bits(*bits)),
        other => other.to_text(),
    }
}

fn number(v: &Value) -> f64 {
    match v {
        Value::Int(i) => *i as f64,
        Value::Float(bits) => f64::from_bits(*bits),
        _ => panic!("the machine asked for arithmetic on something that is no number"),
    }
}

fn float_answer(op: Op, x: &Value, y: &Value) -> Value {
    match op {
        Op::Negate => Value::Float((-number(x)).to_bits()),
        Op::Add => Value::Float((number(x) + number(y)).to_bits()),
        Op::Subtract => Value::Float((number(x) - number(y)).to_bits()),
        Op::Multiply => Value::Float((number(x) * number(y)).to_bits()),
        Op::Divide => Value::Float((number(x) / number(y)).to_bits()),
        Op::IsEqual => Value::Bool(number(x) == number(y)),
        _ => panic!("the machine asked for something that is no arithmetic"),
    }
}

fn parse(source: &str) -> Core {
    let tokens = lex(source.to_string());
    let mut ctx = ParserContext::standard();
    for text in float_literals(&tokens) {
        let bits = text.parse::<f64>().unwrap().to_bits();
        ctx.define_float(text, bits);
    }
    let mut lower = LowerParser::new(tokens);
    let expr = lower.parse().unwrap();
    parse_seq(&ctx, vec![expr]).unwrap()
}

fn run_core(core: &Core) -> (Vec<String>, Signal, Option<RuntimeError>, usize) {
    let mut compiler = Compiler::new();
    compiler.compile(core).unwrap();
    let function = compiler.done().unwrap();
    let mut ffi = FFI::new();
    ffi.insert("print".to_string());
    let mut vm = VM::new(Closure::new(function), &ffi);
    let mut printed = Vec::new();
    let mut rounds = 0;
    loop {
        rounds += 1;
        assert!(rounds < 100_000, "the program does not come to an end");
        match vm.run(1_000) {
            Signal::Paused => {}
            Signal::Waiting => {
                let answer = match vm.request().unwrap() {
                    Request::Native { name, arg } => {
                        assert_eq!(name, "print");
                        printed.push(show(arg));
                        Value::Bool(false)
                    }
                    Request::Float { op, x, y } => float_answer(*op, x, y),
                };
                vm.resume(answer);
            }
            Signal::Done(result) => {
                return (printed, Signal::Done(result), vm.error(), vm.stack_len());
            }
        }
    }
}

fn run(source: &str) -> Vec<String> {
    let (printed, signal, error, height) = run_core(&parse(source));
    assert_eq!(error, None);
    assert_eq!(signal, Signal::Done(VMResult::Success));
    assert_eq!(height, 0);
    printed
}

fn get(name: &str) -> Core {
    Core::Get(name.to_string())
}

fn lit(i: isize) -> Core {
    Core::Lit(Value::Int(i))
}

fn call(callee: Core, args: Vec<Core>) -> Core {
    Core::Call(Box::new(callee), args)
}

fn body(items: Vec<Core>) -> Box<Core> {
    Box::new(Core::Block(vec![Core::Block(items)]))
}

#[test]
fn factorial_by_recursion_prints_120() {
    let out = run(
        "let f = n -> if (n == 0) then (return 1) else (return (n * (f (n - 1)))); print (f 5);",
    );
    assert_eq!(out, vec!["120"]);
}

#[test]
fn sum_in_a_loop_prints_55() {
    let out = run(
        "let f = n -> {let s = 0; loop {if (n == 0) then (return s) else {s = s + n; n = n - 1}}}; print (f 10);",
    );
    assert_eq!(out, vec!["55"]);
}

#[test]
fn closure_over_a_parameter_prints_7() {
    let out = run(
        "let make = x -> (return (y -> (return (x + y)))); let add3 = make 3; print (add3 4);",
    );
    assert_eq!(out, vec!["7"]);
}

#[test]
fn counter_shares_its_cell_across_calls() {
    // let counter = -> {let c = 0; return (-> {c = c + 1; return c})};
    // let step = counter(); print(step()); print(step()); print(step());
    let step_body = body(vec![
        Core::Assign(
            "c".to_string(),
            Box::new(call(get("+"), vec![get("c"), lit(1)])),
        ),
        Core::Return(Box::new(get("c"))),
    ]);
    let counter_body = body(vec![
        Core::Let("c".to_string(), Box::new(lit(0))),
        Core::Return(Box::new(Core::Lambda(vec![], step_body))),
    ]);
    let print_step = || call(get("print"), vec![call(get("step"), vec![])]);
    let program = Core::Block(vec![
        Core::Let(
            "counter".to_string(),
            Box::new(Core::Lambda(vec![], counter_body)),
        ),
        Core::Let("step".to_string(), Box::new(call(get("counter"), vec![]))),
        print_step(),
        print_step(),
        print_step(),
    ]);
    let (printed, signal, error, height) = run_core(&program);
    assert_eq!(error, None);
    assert_eq!(signal, Signal::Done(VMResult::Success));
    assert_eq!(height, 0);
    assert_eq!(printed, vec!["1", "2", "3"]);
}

#[test]
fn counter_source_names_the_closures_without_calling_them() {
    // a name alone is a read of the variable, so the text of the counter
    // program prints the closure three times
    let out = run(
        "let counter = -> {let c = 0; return (-> {c = c + 1; return c})}; let step = counter; print (step); print (step); print (step);",
    );
    assert_eq!(out, vec!["Closure", "Closure", "Closure"]);
}

#[test]
fn fibonacci_prints_89() {
    let out = run(
        "let fib = n -> if (n == 0) then (return 1) else (if (n == 1) then (return 1) else (return ((fib (n-1)) + (fib (n-2))))); print (fib 10);",
    );
    assert_eq!(out, vec!["89"]);
}

#[test]
fn closure_returning_closure_prints_1() {
    let out = run(
        "let cons = x y -> (return (f -> (return (f x y)))); print ((cons 1 2) (x y -> return x));",
    );
    assert_eq!(out, vec!["1"]);
}

#[test]
fn doubles_are_computed_by_the_host() {
    assert_eq!(run("print (1.5 + 2);"), vec!["3.5"]);
    assert_eq!(run("print (7 / 2);"), vec!["3.5"]);
    assert_eq!(run("print (1.5 == 1.5);"), vec!["true"]);
    assert_eq!(run("print (2 * 3);"), vec!["6"]);
}
