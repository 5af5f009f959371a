use tinylang::common::{Chunk, Core, Op};
use tinylang::program::build;
use tinylang::value::{Closure, Function, Value};

fn b(op: Op) -> u8 {
    op.to_u8()
}

#[test]
fn values_written_out() {
    assert_eq!(Value::Nil.to_text(), "None");
    assert_eq!(Value::Bool(true).to_text(), "true");
    assert_eq!(Value::Bool(false).to_text(), "false");
    assert_eq!(Value::Int(0).to_text(), "0");
    assert_eq!(Value::Int(120).to_text(), "120");
    assert_eq!(Value::Int(-7).to_text(), "-7");
    assert_eq!(Value::Int(isize::MAX).to_text(), isize::MAX.to_string());
    assert_eq!(Value::Int(isize::MIN).to_text(), isize::MIN.to_string());
    assert_eq!(Value::Str("a b".to_string()).to_text(), "a b");
    assert_eq!(Value::Str(String::new()).to_text(), "");
    assert_eq!(Value::Native("print".to_string()).to_text(), "Native(print)");
    assert_eq!(Value::HeapedData(3).to_text(), "HeapedData(0x03)");
    assert_eq!(Value::HeapedData(300).to_text(), "HeapedData(0x12c)");
    assert_eq!(
        Value::Float(1.5f64.to_bits()).to_text(),
        "Float(0x3ff8000000000000)"
    );
    assert_eq!(Value::Float(0).to_text(), "Float(0x00)");
    let f = Function::new(0, 0, Chunk::new(vec![], vec![]));
    assert_eq!(Value::Function(f.clone()).to_text(), "Function");
    assert_eq!(Value::Closure(Closure::new(f)).to_text(), "Closure");
}

#[test]
fn copies_of_values_are_written_out_alike() {
    let f = Function::new(1, 2, Chunk::new(vec![1, 2], vec![Value::Int(3), Value::Nil]));
    let c = Closure { function: f.clone(), upvalues: vec![4, 5] };
    let copy = c.clone();
    assert_eq!(copy.upvalues, vec![4, 5]);
    assert_eq!(copy.function.arity, 1);
    assert_eq!(copy.function.upvalue_count, 2);
    assert_eq!(copy.function.chunk.code, vec![1, 2]);
    assert_eq!(format!("{:?}", Value::Closure(copy)), format!("{:?}", Value::Closure(c)));
    let core = Core::Lambda(
        vec!["x".to_string()],
        Box::new(Core::Block(vec![Core::Lit(Value::Function(f)), Core::Break])),
    );
    assert_eq!(format!("{:?}", core.clone()), format!("{:?}", core));
}

#[test]
fn listing_of_a_known_program() {
    let program = Core::If(
        Box::new(Core::Lit(Value::Int(1))),
        Box::new(Core::Lit(Value::Int(2))),
        Box::new(Core::Lit(Value::Int(3))),
    );
    let f = build(&program).unwrap();
    assert_eq!(
        f.chunk.code,
        vec![9, 0, 18, 0, 8, 9, 1, 19, 0, 5, 9, 2, 9, 3, 0]
    );
    assert_eq!(
        f.chunk.disassemble(),
        vec![
            "Constants: [1, 2, 3, None]",
            "| 0x00 : load_constant 0x00 (1)",
            "| 0x02 : jump_if_false 0x08",
            "| 0x05 : load_constant 0x01 (2)",
            "| 0x07 : jump 0x05",
            "| 0x0a : load_constant 0x02 (3)",
            "| 0x0c : load_constant 0x03 (None)",
            "| 0x0e : return",
        ]
    );
}

#[test]
fn each_instruction_written_out() {
    let inner = Function::new(0, 2, Chunk::new(vec![], vec![]));
    let chunk = Chunk::new(
        vec![
            b(Op::Return), b(Op::Pop), b(Op::LoadTrue), b(Op::Negate), b(Op::Add),
            b(Op::Subtract), b(Op::Multiply), b(Op::Divide), b(Op::IsEqual),
            b(Op::LoadConstant), 0,
            b(Op::SetGlobal), 0,
            b(Op::GetGlobal), 0,
            b(Op::SetLocal), 1,
            b(Op::GetLocal), 255,
            b(Op::GetUpvalue), 16,
            b(Op::SetUpvalue), 2,
            b(Op::Call), 3,
            b(Op::MakeClosure), 1, 1, 0, 0, 7,
            b(Op::JumpIfFalse), 1, 2,
            b(Op::Jump), 0, 3,
            b(Op::AbsJump), 255, 255,
        ],
        vec![Value::Str("x".to_string()), Value::Function(inner)],
    );
    let expected = [
        (0, "return", 1), (1, "pop", 1), (2, "load_true", 1), (3, "negate", 1), (4, "add", 1),
        (5, "subtract", 1), (6, "multiply", 1), (7, "divide", 1), (8, "is_equal", 1),
        (9, "load_constant 0x00 (x)", 2),
        (11, "set_global x", 2),
        (13, "get_global x", 2),
        (15, "set_local 0x01", 2),
        (17, "get_local 0xff", 2),
        (19, "get_upvalue 0x10", 2),
        (21, "set_upvalue 0x02", 2),
        (23, "call 0x03", 2),
        (25, "make_closure 0x01 0x01 0x00 0x00 0x07", 6),
        (31, "jump_if_false 0x102", 3),
        (34, "jump 0x03", 3),
        (37, "abs_jump 0xffff", 3),
    ];
    for (at, text, width) in expected {
        assert_eq!(chunk.disassemble_at(at), (text.to_string(), width), "at {}", at);
    }
    let lines = chunk.disassemble();
    assert_eq!(lines.len(), expected.len() + 1);
    assert_eq!(lines[0], "Constants: [x, Function]");
    assert_eq!(lines[10], "| 0x09 : load_constant 0x00 (x)");
    assert_eq!(lines[21], "| 0x25 : abs_jump 0xffff");
}

#[test]
fn listing_of_code_that_is_not_whole() {
    let chunk = Chunk::new(vec![b(Op::LoadConstant), 9, 99, b(Op::Jump), 0], vec![]);
    assert_eq!(chunk.disassemble_at(0), ("load_constant 0x09 (?)".to_string(), 2));
    assert_eq!(chunk.disassemble_at(2), ("unknown 0x63".to_string(), 1));
    assert_eq!(chunk.disassemble_at(3), ("jump <truncated>".to_string(), 2));
    assert_eq!(
        chunk.disassemble(),
        vec![
            "Constants: []",
            "| 0x00 : load_constant 0x09 (?)",
            "| 0x02 : unknown 0x63",
            "| 0x03 : jump <truncated>",
        ]
    );
    let f = Function::new(0, 3, Chunk::new(vec![], vec![]));
    let short = Chunk::new(vec![b(Op::MakeClosure), 0, 1, 0], vec![Value::Function(f)]);
    assert_eq!(short.disassemble_at(0), ("make_closure <truncated>".to_string(), 4));
    assert_eq!(Chunk::new(vec![], vec![]).disassemble(), vec!["Constants: []"]);
}
