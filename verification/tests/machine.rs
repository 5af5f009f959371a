use tinylang::common::{Chunk, Op};
use tinylang::native::FFI;
use tinylang::value::{Closure, Function, Value};
use tinylang::vm::{arith, equal, negate, Outcome, Request, RuntimeError, Signal, VMResult, VM};

fn function_of(arity: usize, upvalue_count: usize, code: Vec<u8>, constants: Vec<Value>) -> Function {
    Function::new(arity, upvalue_count, Chunk::new(code, constants))
}

fn closure_of(code: Vec<u8>, constants: Vec<Value>) -> Closure {
    Closure::new(function_of(0, 0, code, constants))
}

fn b(op: Op) -> u8 {
    op.to_u8()
}

fn fails_with(code: Vec<u8>, constants: Vec<Value>, error: RuntimeError) {
    let ffi = FFI::new();
    let mut vm = VM::new(closure_of(code, constants), &ffi);
    assert_eq!(vm.run(1_000), Signal::Done(VMResult::Error));
    assert_eq!(vm.error(), Some(error));
}

fn result_of(code: Vec<u8>, constants: Vec<Value>) -> Value {
    let ffi = FFI::new();
    let mut vm = VM::new(closure_of(code, constants), &ffi);
    assert_eq!(vm.run(1_000), Signal::Done(VMResult::Success));
    assert_eq!(vm.stack_len(), 0);
    assert_eq!(vm.frame_count(), 0);
    vm.result().unwrap().clone()
}

#[test]
fn adds_two_integers_and_returns() {
    let code = vec![b(Op::LoadConstant), 0, b(Op::LoadConstant), 1, b(Op::Add), b(Op::Return)];
    let r = result_of(code, vec![Value::Int(2), Value::Int(40)]);
    assert!(matches!(r, Value::Int(42)));
}

#[test]
fn operands_are_taken_in_order() {
    // x is pushed first, y is on top: 10 - 3
    let code = vec![b(Op::LoadConstant), 0, b(Op::LoadConstant), 1, b(Op::Subtract), b(Op::Return)];
    let r = result_of(code, vec![Value::Int(10), Value::Int(3)]);
    assert!(matches!(r, Value::Int(7)));
}

#[test]
fn multiplies_integers() {
    let code = vec![b(Op::LoadConstant), 0, b(Op::LoadConstant), 1, b(Op::Multiply), b(Op::Return)];
    let r = result_of(code, vec![Value::Int(-6), Value::Int(7)]);
    assert!(matches!(r, Value::Int(-42)));
}

#[test]
fn promotion_table_of_arithmetic() {
    // two integers stay an integer
    assert!(matches!(
        arith(Op::Add, &Value::Int(1), &Value::Int(2)),
        Outcome::Push(Value::Int(3))
    ));
    assert!(matches!(
        arith(Op::Subtract, &Value::Int(1), &Value::Int(2)),
        Outcome::Push(Value::Int(-1))
    ));
    assert!(matches!(
        arith(Op::Multiply, &Value::Int(4), &Value::Int(5)),
        Outcome::Push(Value::Int(20))
    ));
    // a double among them makes a double, which the host is asked for
    for op in [Op::Add, Op::Subtract, Op::Multiply, Op::Divide] {
        assert!(matches!(
            arith(op, &Value::Float(1), &Value::Int(2)),
            Outcome::Ask(Request::Float { .. })
        ));
        assert!(matches!(
            arith(op, &Value::Int(2), &Value::Float(1)),
            Outcome::Ask(Request::Float { .. })
        ));
        assert!(matches!(
            arith(op, &Value::Float(2), &Value::Float(1)),
            Outcome::Ask(Request::Float { .. })
        ));
    }
    // division is always a double
    assert!(matches!(
        arith(Op::Divide, &Value::Int(6), &Value::Int(3)),
        Outcome::Ask(Request::Float { op: Op::Divide, x: Value::Int(6), y: Value::Int(3) })
    ));
}

#[test]
fn arithmetic_errors() {
    assert!(matches!(
        arith(Op::Divide, &Value::Int(6), &Value::Int(0)),
        Outcome::Fail(RuntimeError::DivisionByZero)
    ));
    assert!(matches!(
        arith(Op::Add, &Value::Int(isize::MAX), &Value::Int(1)),
        Outcome::Fail(RuntimeError::Overflow)
    ));
    assert!(matches!(
        arith(Op::Multiply, &Value::Int(isize::MIN), &Value::Int(-1)),
        Outcome::Fail(RuntimeError::Overflow)
    ));
    assert!(matches!(
        arith(Op::Add, &Value::Bool(true), &Value::Int(1)),
        Outcome::Fail(RuntimeError::TypeError)
    ));
    assert!(matches!(
        arith(Op::Add, &Value::Int(1), &Value::Str("a".to_string())),
        Outcome::Fail(RuntimeError::TypeError)
    ));
}

#[test]
fn negation_of_each_kind() {
    assert!(matches!(negate(&Value::Bool(true)), Outcome::Push(Value::Bool(false))));
    assert!(matches!(negate(&Value::Bool(false)), Outcome::Push(Value::Bool(true))));
    assert!(matches!(negate(&Value::Int(5)), Outcome::Push(Value::Int(-5))));
    assert!(matches!(negate(&Value::Int(0)), Outcome::Push(Value::Int(0))));
    assert!(matches!(
        negate(&Value::Int(isize::MIN)),
        Outcome::Fail(RuntimeError::Overflow)
    ));
    assert!(matches!(
        negate(&Value::Float(7)),
        Outcome::Ask(Request::Float { op: Op::Negate, x: Value::Float(7), y: Value::Nil })
    ));
    assert!(matches!(negate(&Value::Nil), Outcome::Fail(RuntimeError::TypeError)));
}

#[test]
fn equality_is_total() {
    assert!(matches!(equal(&Value::Int(1), &Value::Int(1)), Outcome::Push(Value::Bool(true))));
    assert!(matches!(equal(&Value::Int(1), &Value::Int(2)), Outcome::Push(Value::Bool(false))));
    assert!(matches!(
        equal(&Value::Bool(false), &Value::Bool(false)),
        Outcome::Push(Value::Bool(true))
    ));
    // across kinds nothing is equal, and nothing fails
    assert!(matches!(equal(&Value::Int(0), &Value::Bool(false)), Outcome::Push(Value::Bool(false))));
    assert!(matches!(
        equal(&Value::Str("a".to_string()), &Value::Str("a".to_string())),
        Outcome::Push(Value::Bool(false))
    ));
    assert!(matches!(equal(&Value::Nil, &Value::Nil), Outcome::Push(Value::Bool(false))));
    assert!(matches!(
        equal(&Value::Float(1), &Value::Float(1)),
        Outcome::Ask(Request::Float { op: Op::IsEqual, .. })
    ));
}

#[test]
fn only_false_and_zero_are_falsey() {
    assert!(Value::Bool(false).is_falsey());
    assert!(Value::Int(0).is_falsey());
    assert!(!Value::Bool(true).is_falsey());
    assert!(!Value::Int(1).is_falsey());
    assert!(!Value::Int(-1).is_falsey());
    assert!(!Value::Nil.is_falsey());
    assert!(!Value::Float(0).is_falsey());
    assert!(!Value::Str(String::new()).is_falsey());
    assert!(!Value::Native("print".to_string()).is_falsey());
    assert!(!Value::HeapedData(0).is_falsey());
}

#[test]
fn jump_if_false_jumps_on_zero_and_goes_on_otherwise() {
    // 0: load k   2: jump_if_false +5 -> 7   5: load_true  6: return   7: load 1  9: return
    let code = |k: u8| {
        vec![
            b(Op::LoadConstant), k,
            b(Op::JumpIfFalse), 0, 5,
            b(Op::LoadTrue),
            b(Op::Return),
            b(Op::LoadConstant), 1,
            b(Op::Return),
        ]
    };
    let constants = || vec![Value::Int(0), Value::Int(9), Value::Int(3), Value::Bool(false)];
    assert!(matches!(result_of(code(0), constants()), Value::Int(9)));
    assert!(matches!(result_of(code(3), constants()), Value::Int(9)));
    assert!(matches!(result_of(code(2), constants()), Value::Bool(true)));
    assert!(matches!(result_of(code(1), constants()), Value::Bool(true)));
}

#[test]
fn jumps_relative_and_absolute() {
    // 0: jump +4 -> 4   3: return (skipped)   4: abs_jump 8   7: pop (skipped)   8: load_true 9: return
    let code = vec![
        b(Op::Jump), 0, 4,
        b(Op::Return),
        b(Op::AbsJump), 0, 8,
        b(Op::Pop),
        b(Op::LoadTrue),
        b(Op::Return),
    ];
    assert!(matches!(result_of(code, vec![]), Value::Bool(true)));
}

#[test]
fn jump_out_of_the_chunk_is_malformed() {
    fails_with(vec![b(Op::Jump), 0, 9], vec![], RuntimeError::Malformed);
    fails_with(vec![b(Op::AbsJump), 1, 0], vec![], RuntimeError::Malformed);
}

#[test]
fn running_off_the_end_finishes_without_a_value() {
    let ffi = FFI::new();
    let mut vm = VM::new(closure_of(vec![b(Op::LoadTrue)], vec![]), &ffi);
    assert_eq!(vm.step(), Signal::Paused);
    assert_eq!(vm.step(), Signal::Done(VMResult::Success));
    assert!(matches!(vm.result(), Some(Value::Nil)));
}

#[test]
fn malformed_code_fails() {
    fails_with(vec![200], vec![], RuntimeError::Malformed);
    fails_with(vec![b(Op::LoadConstant)], vec![], RuntimeError::Malformed);
    fails_with(vec![b(Op::LoadConstant), 3], vec![], RuntimeError::Malformed);
    fails_with(vec![b(Op::Pop)], vec![], RuntimeError::Malformed);
    fails_with(vec![b(Op::Return)], vec![], RuntimeError::Malformed);
    fails_with(vec![b(Op::GetLocal), 0], vec![], RuntimeError::Malformed);
    fails_with(vec![b(Op::GetUpvalue), 0], vec![], RuntimeError::Malformed);
    fails_with(vec![b(Op::LoadConstant), 0, b(Op::Return)], vec![Value::HeapedData(5)], RuntimeError::Malformed);
    fails_with(vec![b(Op::MakeClosure), 0], vec![Value::Int(1)], RuntimeError::Malformed);
    fails_with(vec![b(Op::SetGlobal), 0], vec![Value::Int(1)], RuntimeError::Malformed);
}

#[test]
fn type_error_in_the_machine() {
    fails_with(
        vec![b(Op::LoadTrue), b(Op::LoadTrue), b(Op::Add)],
        vec![],
        RuntimeError::TypeError,
    );
}

#[test]
fn division_of_an_integer_by_zero_fails() {
    fails_with(
        vec![b(Op::LoadConstant), 0, b(Op::LoadConstant), 1, b(Op::Divide)],
        vec![Value::Int(1), Value::Int(0)],
        RuntimeError::DivisionByZero,
    );
}

#[test]
fn overflow_fails() {
    fails_with(
        vec![b(Op::LoadConstant), 0, b(Op::LoadConstant), 0, b(Op::Add)],
        vec![Value::Int(isize::MAX)],
        RuntimeError::Overflow,
    );
}

#[test]
fn calling_what_is_no_function_fails() {
    fails_with(
        vec![b(Op::LoadTrue), b(Op::Call), 0],
        vec![],
        RuntimeError::NotCallable,
    );
}

#[test]
fn unbound_global_fails() {
    fails_with(
        vec![b(Op::GetGlobal), 0],
        vec![Value::Str("x".to_string())],
        RuntimeError::UnboundGlobal,
    );
}

#[test]
fn globals_are_set_and_read() {
    let code = vec![
        b(Op::LoadConstant), 1,
        b(Op::SetGlobal), 0,
        b(Op::GetGlobal), 0,
        b(Op::Return),
    ];
    let ffi = FFI::new();
    let mut vm = VM::new(closure_of(code, vec![Value::Str("x".to_string()), Value::Int(5)]), &ffi);
    assert_eq!(vm.run(100), Signal::Done(VMResult::Success));
    assert!(matches!(vm.result(), Some(Value::Int(5))));
    assert!(matches!(vm.global(&"x".to_string()), Some(Value::Int(5))));
    assert!(vm.global(&"y".to_string()).is_none());
}

#[test]
fn host_function_goes_before_a_global_of_its_name() {
    let code = vec![
        b(Op::LoadConstant), 1,
        b(Op::SetGlobal), 0,
        b(Op::GetGlobal), 0,
        b(Op::Return),
    ];
    let mut ffi = FFI::new();
    ffi.insert("print".to_string());
    assert!(ffi.has(&"print".to_string()));
    assert!(!ffi.has(&"exit".to_string()));
    let mut vm = VM::new(
        closure_of(code, vec![Value::Str("print".to_string()), Value::Int(5)]),
        &ffi,
    );
    assert_eq!(vm.run(100), Signal::Done(VMResult::Success));
    match vm.result() {
        Some(Value::Native(name)) => assert_eq!(name, "print"),
        other => panic!("not the host function: {:?}", other),
    }
    // the global is set all the same
    assert!(matches!(vm.global(&"print".to_string()), Some(Value::Int(5))));
}

fn identity() -> Function {
    // the function of one parameter that returns it
    function_of(1, 0, vec![b(Op::GetLocal), 0, b(Op::Return)], vec![])
}

#[test]
fn call_pushes_a_frame_within_the_stack_and_return_cuts_it() {
    // 0: make_closure 0   2: load 1 (junk below the argument)   4: load 2 (argument)
    // 6: get_local 0 (callee)   8: call 1   10: return
    let code = vec![
        b(Op::MakeClosure), 0,
        b(Op::LoadConstant), 1,
        b(Op::LoadConstant), 2,
        b(Op::GetLocal), 0,
        b(Op::Call), 1,
        b(Op::Return),
    ];
    let constants = vec![Value::Function(identity()), Value::Int(11), Value::Int(22)];
    let ffi = FFI::new();
    let mut vm = VM::new(closure_of(code, constants), &ffi);
    for _ in 0..4 {
        assert_eq!(vm.step(), Signal::Paused);
    }
    assert_eq!(vm.stack_len(), 4);
    assert_eq!(vm.frame_count(), 1);
    assert_eq!(vm.stack_start(), Some(0));
    // the call: the callee goes, the frame starts at the argument
    assert_eq!(vm.step(), Signal::Paused);
    assert_eq!(vm.frame_count(), 2);
    assert_eq!(vm.stack_len(), 3);
    assert_eq!(vm.stack_start(), Some(2));
    assert!(vm.stack_start().unwrap() <= vm.stack_len());
    // get_local 0 in the callee
    assert_eq!(vm.step(), Signal::Paused);
    assert_eq!(vm.stack_len(), 4);
    // the return: the stack is cut to where the frame started, and the
    // result lies there
    assert_eq!(vm.step(), Signal::Paused);
    assert_eq!(vm.frame_count(), 1);
    assert_eq!(vm.stack_len(), 3);
    assert!(matches!(vm.stack()[2], Value::Int(22)));
    assert!(matches!(vm.position(), Some((_, 10))));
    // the return of the outermost frame empties the stack
    assert_eq!(vm.step(), Signal::Done(VMResult::Success));
    assert_eq!(vm.stack_len(), 0);
    assert!(matches!(vm.result(), Some(Value::Int(22))));
}

#[test]
fn arity_mismatch_fails() {
    let code = vec![
        b(Op::MakeClosure), 0,
        b(Op::GetLocal), 0,
        b(Op::Call), 0,
    ];
    fails_with(code, vec![Value::Function(identity())], RuntimeError::ArityMismatch);
}

#[test]
fn call_with_too_few_values_on_the_stack_is_malformed() {
    let two = function_of(2, 0, vec![b(Op::GetLocal), 0, b(Op::Return)], vec![]);
    // the closure is the only value below the callee
    let code = vec![
        b(Op::MakeClosure), 0,
        b(Op::GetLocal), 0,
        b(Op::GetLocal), 0,
        b(Op::Call), 2,
    ];
    let ffi = FFI::new();
    let mut vm = VM::new(closure_of(code.clone(), vec![Value::Function(two.clone())]), &ffi);
    // two values are below the callee here, so this call is in order
    assert_eq!(vm.run(4), Signal::Paused);
    assert_eq!(vm.frame_count(), 2);
    assert_eq!(vm.stack_start(), Some(0));
    let short = vec![b(Op::MakeClosure), 0, b(Op::Call), 2];
    fails_with(short, vec![Value::Function(two)], RuntimeError::Malformed);
}

#[test]
fn frame_cap_gives_stack_overflow() {
    // f = -> f(): 0: get_upvalue 0   2: call 0   4: return
    let f = function_of(0, 1, vec![b(Op::GetUpvalue), 0, b(Op::Call), 0, b(Op::Return)], vec![]);
    // 0: make_closure 0 capturing its own slot   4: call 0
    let code = vec![b(Op::MakeClosure), 0, 1, 0, b(Op::Call), 0, b(Op::Return)];
    let ffi = FFI::new();
    let mut vm = VM::new(closure_of(code.clone(), vec![Value::Function(f.clone())]), &ffi);
    assert_eq!(vm.run(100_000), Signal::Done(VMResult::Error));
    assert_eq!(vm.error(), Some(RuntimeError::StackOverflow));
    assert_eq!(vm.frame_count(), 1024);
    let mut small = VM::new(closure_of(code, vec![Value::Function(f)]), &ffi);
    small.set_frame_cap(3);
    assert_eq!(small.run(100_000), Signal::Done(VMResult::Error));
    assert_eq!(small.error(), Some(RuntimeError::StackOverflow));
    assert_eq!(small.frame_count(), 3);
}

#[test]
fn budget_bounds_the_steps() {
    // 0: abs_jump 0
    let ffi = FFI::new();
    let mut vm = VM::new(closure_of(vec![b(Op::AbsJump), 0, 0], vec![]), &ffi);
    assert_eq!(vm.run(0), Signal::Paused);
    assert_eq!(vm.run(10_000), Signal::Paused);
    assert_eq!(vm.signal(), Signal::Paused);
}

#[test]
fn host_function_is_called_with_the_top_argument() {
    // 0: load 1   2: get_global 0   4: call 1   6: return
    let code = vec![
        b(Op::LoadConstant), 1,
        b(Op::GetGlobal), 0,
        b(Op::Call), 1,
        b(Op::Return),
    ];
    let mut ffi = FFI::new();
    ffi.insert("twice".to_string());
    let mut vm = VM::new(
        closure_of(code, vec![Value::Str("twice".to_string()), Value::Int(21)]),
        &ffi,
    );
    assert_eq!(vm.run(100), Signal::Waiting);
    match vm.request() {
        Some(Request::Native { name, arg }) => {
            assert_eq!(name, "twice");
            assert!(matches!(arg, Value::Int(21)));
        }
        other => panic!("not a call of the host: {:?}", other),
    }
    assert_eq!(vm.stack_len(), 0);
    // a machine that waits does not step
    assert_eq!(vm.step(), Signal::Waiting);
    vm.resume(Value::Int(42));
    assert_eq!(vm.signal(), Signal::Paused);
    assert_eq!(vm.run(100), Signal::Done(VMResult::Success));
    assert!(matches!(vm.result(), Some(Value::Int(42))));
}

#[test]
fn answer_of_the_wrong_kind_fails() {
    let code = vec![b(Op::LoadConstant), 0, b(Op::LoadConstant), 0, b(Op::Add), b(Op::Return)];
    let ffi = FFI::new();
    let mut vm = VM::new(closure_of(code.clone(), vec![Value::Float(0)]), &ffi);
    assert_eq!(vm.run(100), Signal::Waiting);
    vm.resume(Value::Int(1));
    assert_eq!(vm.signal(), Signal::Done(VMResult::Error));
    assert_eq!(vm.error(), Some(RuntimeError::BadAnswer));
    let mut vm = VM::new(closure_of(code, vec![Value::Float(0)]), &ffi);
    assert_eq!(vm.run(100), Signal::Waiting);
    vm.resume(Value::Float(9));
    assert_eq!(vm.run(100), Signal::Done(VMResult::Success));
    assert!(matches!(vm.result(), Some(Value::Float(9))));
    // an answer that nothing asked for changes nothing
    vm.resume(Value::Int(1));
    assert_eq!(vm.signal(), Signal::Done(VMResult::Success));
}

#[test]
fn set_local_writes_the_slot_and_pops() {
    // 0: load 0 (slot 0)   2: load 1   4: set_local 0   6: get_local 0   8: return
    let code = vec![
        b(Op::LoadConstant), 0,
        b(Op::LoadConstant), 1,
        b(Op::SetLocal), 0,
        b(Op::GetLocal), 0,
        b(Op::Return),
    ];
    let ffi = FFI::new();
    let mut vm = VM::new(closure_of(code, vec![Value::Int(1), Value::Int(2)]), &ffi);
    assert_eq!(vm.run(3), Signal::Paused);
    assert_eq!(vm.stack_len(), 1);
    assert!(matches!(vm.stack()[0], Value::Int(2)));
    assert_eq!(vm.run(100), Signal::Done(VMResult::Success));
    assert!(matches!(vm.result(), Some(Value::Int(2))));
}

#[test]
fn captured_local_is_shared_by_reference() {
    // g = -> {c = 7 by set_upvalue; return nothing}: 0: load 0   2: set_upvalue 0   4: return
    let g = function_of(
        0,
        1,
        vec![b(Op::LoadConstant), 0, b(Op::SetUpvalue), 0, b(Op::Return)],
        vec![Value::Int(7)],
    );
    // 0: load 1 (local c = 1)   2: make_closure 0 capturing slot 0   6: make_closure 0 again
    // 10: get_local 1   12: call 0   14: pop   15: get_local 0   17: return
    let code = vec![
        b(Op::LoadConstant), 1,
        b(Op::MakeClosure), 0, 1, 0,
        b(Op::MakeClosure), 0, 1, 0,
        b(Op::GetLocal), 1,
        b(Op::Call), 0,
        b(Op::Pop),
        b(Op::GetLocal), 0,
        b(Op::Return),
    ];
    let ffi = FFI::new();
    let mut vm = VM::new(closure_of(code, vec![Value::Function(g), Value::Int(1)]), &ffi);
    assert_eq!(vm.run(3), Signal::Paused);
    // the slot refers to a cell now, and both closures have that cell
    let cell = match &vm.stack()[0] {
        Value::HeapedData(h) => *h,
        other => panic!("the slot was not promoted: {:?}", other),
    };
    assert!(matches!(vm.cell(cell), Some(Value::Int(1))));
    for slot in [1, 2] {
        match &vm.stack()[slot] {
            Value::Closure(c) => assert_eq!(c.upvalues, vec![cell]),
            other => panic!("not a closure: {:?}", other),
        }
    }
    // the first closure assigns; the frame and the other closure see it
    assert_eq!(vm.run(5), Signal::Paused);
    assert!(matches!(vm.cell(cell), Some(Value::Int(7))));
    assert!(matches!(vm.resolve(&vm.stack()[0]), Some(Value::Int(7))));
    assert_eq!(vm.run(100), Signal::Done(VMResult::Success));
    assert!(matches!(vm.result(), Some(Value::Int(7))));
}

#[test]
fn assignment_to_a_captured_local_goes_to_its_cell() {
    let g = function_of(0, 1, vec![b(Op::GetUpvalue), 0, b(Op::Return)], vec![]);
    // 0: load 1 (local = 1)   2: make_closure 0 capturing slot 0   6: load 2   8: set_local 0
    // 10: get_local 1   12: call 0   14: return
    let code = vec![
        b(Op::LoadConstant), 1,
        b(Op::MakeClosure), 0, 1, 0,
        b(Op::LoadConstant), 2,
        b(Op::SetLocal), 0,
        b(Op::GetLocal), 1,
        b(Op::Call), 0,
        b(Op::Return),
    ];
    let r = result_of(code, vec![Value::Function(g), Value::Int(1), Value::Int(2)]);
    assert!(matches!(r, Value::Int(2)));
}

#[test]
fn closure_captures_from_the_closure_around_it() {
    // inner = -> return upvalue 0
    let inner = function_of(0, 1, vec![b(Op::GetUpvalue), 0, b(Op::Return)], vec![]);
    // middle = -> return (closure of inner, capturing upvalue 0 of middle)
    let middle = function_of(
        0,
        1,
        vec![b(Op::MakeClosure), 0, 0, 0, b(Op::Return)],
        vec![Value::Function(inner)],
    );
    // 0: load 1 (local = 5)   2: make_closure 0 capturing slot 0   6: call 0 -> inner closure
    // 8: call 0 -> 5   10: return
    let code = vec![
        b(Op::LoadConstant), 1,
        b(Op::MakeClosure), 0, 1, 0,
        b(Op::Call), 0,
        b(Op::Call), 0,
        b(Op::Return),
    ];
    let r = result_of(code, vec![Value::Function(middle), Value::Int(5)]);
    assert!(matches!(r, Value::Int(5)));
}

#[test]
fn load_keeps_the_globals() {
    let first = vec![b(Op::LoadConstant), 1, b(Op::SetGlobal), 0, b(Op::LoadTrue), b(Op::Return)];
    let second = vec![b(Op::GetGlobal), 0, b(Op::Return)];
    let constants = || vec![Value::Str("x".to_string()), Value::Int(5)];
    let ffi = FFI::new();
    let mut vm = VM::new(closure_of(first, constants()), &ffi);
    assert_eq!(vm.run(100), Signal::Done(VMResult::Success));
    vm.load(closure_of(second, constants()));
    assert_eq!(vm.signal(), Signal::Paused);
    assert_eq!(vm.frame_count(), 1);
    assert_eq!(vm.stack_len(), 0);
    assert_eq!(vm.run(100), Signal::Done(VMResult::Success));
    assert!(matches!(vm.result(), Some(Value::Int(5))));
}

#[test]
fn failure_keeps_the_globals() {
    let code = vec![
        b(Op::LoadConstant), 1,
        b(Op::SetGlobal), 0,
        b(Op::Pop),
    ];
    let ffi = FFI::new();
    let mut vm = VM::new(closure_of(code, vec![Value::Str("x".to_string()), Value::Int(5)]), &ffi);
    assert_eq!(vm.run(100), Signal::Done(VMResult::Error));
    assert_eq!(vm.error(), Some(RuntimeError::Malformed));
    assert!(vm.result().is_none());
    assert!(vm.request().is_none());
    assert!(matches!(vm.global(&"x".to_string()), Some(Value::Int(5))));
}

#[test]
fn opcode_bytes_and_widths() {
    let all = [
        (Op::Return, 0, 1), (Op::Pop, 1, 1), (Op::LoadTrue, 2, 1), (Op::Negate, 3, 1),
        (Op::Add, 4, 1), (Op::Subtract, 5, 1), (Op::Multiply, 6, 1), (Op::Divide, 7, 1),
        (Op::IsEqual, 8, 1), (Op::LoadConstant, 9, 2), (Op::SetGlobal, 10, 2),
        (Op::GetGlobal, 11, 2), (Op::SetLocal, 12, 2), (Op::GetLocal, 13, 2),
        (Op::GetUpvalue, 14, 2), (Op::SetUpvalue, 15, 2), (Op::Call, 16, 2),
        (Op::MakeClosure, 17, 2), (Op::JumpIfFalse, 18, 3), (Op::Jump, 19, 3),
        (Op::AbsJump, 20, 3),
    ];
    for (op, byte, width) in all {
        assert_eq!(op.to_u8(), byte);
        assert_eq!(op.width(), width);
        assert_eq!(Op::try_from_u8(byte), Some(op));
        assert_eq!(Op::from_u8(byte), op);
    }
    assert_eq!(Op::try_from_u8(21), None);
    assert_eq!(Op::try_from_u8(255), None);
}

#[test]
fn sixteen_bit_operands_are_big_endian() {
    let mut chunk = Chunk::new(vec![0, 0, 0, 0], vec![]);
    chunk.write_byte_double(1, 0x1234);
    assert_eq!(chunk.code, vec![0, 0x12, 0x34, 0]);
    assert_eq!(chunk.read_byte_double(1), 0x1234);
    chunk.write_byte_double(0, 0xffff);
    assert_eq!(chunk.read_byte_double(0), 65535);
    assert_eq!(chunk.read_byte_double(2), 0x3400);
}

#[test]
fn constants_keep_their_index() {
    let mut chunk = Chunk::new(vec![], vec![]);
    assert_eq!(chunk.add_constant(Value::Int(1)), 0);
    assert_eq!(chunk.add_constant(Value::Int(1)), 1);
    assert_eq!(chunk.add_constant(Value::Str("a".to_string())), 2);
    assert!(matches!(chunk.constants[0], Value::Int(1)));
    assert!(matches!(chunk.constants[1], Value::Int(1)));
    assert_eq!(chunk.constants.len(), 3);
}
