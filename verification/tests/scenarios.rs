use vm::code::Instruction;
use vm::machine::{Run, VM};
use vm::value::{TypeDesc, Value};

const FUEL: u64 = 10_000_000;

fn call_global(m: &mut VM, name: &str, typ: TypeDesc, args: &[Value]) -> Value {
    let f = m.get_global(name, typ).expect("global");
    m.push(f);
    for a in args {
        m.push(*a);
    }
    match m.call_function(args.len(), FUEL).expect("call") {
        Run::Done => m.pop(),
        other => panic!("unexpected run state {:?}", other),
    }
}

#[test]
fn recursive_function_yields_thirteen() {
    // let fib x = if x < 3 then 1 else fib (x - 1) + fib (x - 2) in fib 7
    let mut m = VM::new();
    let instrs = vec![
        Instruction::Push(0),
        Instruction::PushInt(3),
        Instruction::IntLT,
        Instruction::CJump(16),
        Instruction::PushGlobal(0),
        Instruction::Push(0),
        Instruction::PushInt(1),
        Instruction::SubtractInt,
        Instruction::Call(1),
        Instruction::PushGlobal(0),
        Instruction::Push(0),
        Instruction::PushInt(2),
        Instruction::SubtractInt,
        Instruction::Call(1),
        Instruction::AddInt,
        Instruction::Jump(17),
        Instruction::PushInt(1),
    ];
    let ix = m.add_bytecode("fib", TypeDesc::Int, 1, instrs).expect("add");
    assert_eq!(ix, 0);
    let r = call_global(&mut m, "fib", TypeDesc::Int, &[Value::Int(7)]);
    assert_eq!(r, Value::Int(13));
}

#[test]
fn curried_partial_chains_sum_to_forty() {
    // f x y z = x + y + z, applied as ((f 10) 2) 1 and (f 20 5) 2
    let mut m = VM::new();
    let instrs = vec![
        Instruction::Push(0),
        Instruction::Push(1),
        Instruction::AddInt,
        Instruction::Push(2),
        Instruction::AddInt,
    ];
    m.add_bytecode("f", TypeDesc::Int, 3, instrs).expect("add");

    let f = m.get_global("f", TypeDesc::Int).expect("global");
    m.push(f);
    m.push(Value::Int(10));
    assert!(matches!(m.call_function(1, FUEL), Ok(Run::Done)));
    let g = m.pop();
    assert!(matches!(g, Value::PartialApplication(_)));
    m.push(g);
    m.push(Value::Int(2));
    assert!(matches!(m.call_function(1, FUEL), Ok(Run::Done)));
    let h = m.pop();
    assert!(matches!(h, Value::PartialApplication(_)));
    m.push(h);
    m.push(Value::Int(1));
    assert!(matches!(m.call_function(1, FUEL), Ok(Run::Done)));
    let first = m.pop();
    assert_eq!(first, Value::Int(13));

    m.push(f);
    m.push(Value::Int(20));
    m.push(Value::Int(5));
    assert!(matches!(m.call_function(2, FUEL), Ok(Run::Done)));
    let k = m.pop();
    m.push(k);
    m.push(Value::Int(2));
    assert!(matches!(m.call_function(1, FUEL), Ok(Run::Done)));
    let second = m.pop();
    assert_eq!(second, Value::Int(27));

    if let (Value::Int(a), Value::Int(b)) = (first, second) {
        assert_eq!(a + b, 40);
    } else {
        panic!("expected integers");
    }
}

#[test]
fn over_application_equals_two_step_application() {
    // f x = \y -> x + y, applied as f 10 2 and as (f 10) 2
    let mut m = VM::new();
    let inner = vm::code::CompiledFunction {
        id: m.symbol("f.inner"),
        typ: TypeDesc::Int,
        args: 1,
        instructions: vec![
            Instruction::PushUpVar(0),
            Instruction::Push(0),
            Instruction::AddInt,
        ],
        inner_functions: vec![],
        strings: vec![],
    };
    let outer = vm::code::CompiledFunction {
        id: m.symbol("f"),
        typ: TypeDesc::Int,
        args: 1,
        instructions: vec![Instruction::Push(0), Instruction::MakeClosure(0, 1)],
        inner_functions: vec![inner],
        strings: vec![],
    };
    let fref = m.new_function(&outer).expect("load");
    let f = m.new_closure(fref, vec![]).expect("closure");

    // two arguments at once to a 1-arity function: the excess is bundled
    // and re-applied to the returned closure
    m.push(f);
    m.push(Value::Int(10));
    m.push(Value::Int(2));
    assert!(matches!(m.call_function(2, FUEL), Ok(Run::Done)));
    let at_once = m.pop();
    assert_eq!(at_once, Value::Int(12));

    // one argument, then the next to the result
    m.push(f);
    m.push(Value::Int(10));
    assert!(matches!(m.call_function(1, FUEL), Ok(Run::Done)));
    let mid = m.pop();
    assert!(matches!(mid, Value::Closure(_)));
    m.push(mid);
    m.push(Value::Int(2));
    assert!(matches!(m.call_function(1, FUEL), Ok(Run::Done)));
    let stepped = m.pop();
    assert_eq!(stepped, at_once);
}

#[test]
fn tail_recursion_keeps_frame_depth_constant() {
    // loop n = if n == 0 then 0 else loop (n - 1), via TailCall
    let instrs = vec![
        Instruction::Push(0),
        Instruction::PushInt(0),
        Instruction::IntEQ,
        Instruction::CJump(9),
        Instruction::PushGlobal(0),
        Instruction::Push(0),
        Instruction::PushInt(1),
        Instruction::SubtractInt,
        Instruction::TailCall(1),
        Instruction::PushInt(0),
    ];
    let mut depths = Vec::new();
    for n in [5i64, 50_000i64] {
        let mut m = VM::new();
        m.add_bytecode("countdown", TypeDesc::Int, 1, instrs.clone())
            .expect("add");
        let r = call_global(&mut m, "countdown", TypeDesc::Int, &[Value::Int(n)]);
        assert_eq!(r, Value::Int(0));
        depths.push((m.stack.frames.len(), m.stack.values.len()));
    }
    // frame-stack use after completion is independent of the recursion depth
    assert_eq!(depths[0], depths[1]);
}

#[test]
fn record_construction_equals_manual_value() {
    // { x = 0, y = 1.0, z = {} } compared against a manually built value
    let mut m = VM::new();
    let instrs = vec![
        Instruction::PushInt(0),
        Instruction::PushFloat(1.0f64.to_bits()),
        Instruction::Construct(0, 0),
        Instruction::Construct(0, 3),
    ];
    m.add_bytecode("record_prog", TypeDesc::Unit, 0, instrs)
        .expect("add");
    let got = call_global(&mut m, "record_prog", TypeDesc::Unit, &[]);
    let unit = m.new_data(0, &vec![]).expect("unit");
    let expected = m
        .new_data(
            0,
            &vec![Value::Int(0), Value::Float(1.0f64.to_bits()), unit],
        )
        .expect("expected");
    assert!(m.value_eq(got, expected, 64));
}

#[test]
fn construct_tagged_variant() {
    // a data constructor with tag 1 and one field
    let mut m = VM::new();
    let instrs = vec![Instruction::PushInt(1), Instruction::Construct(1, 1)];
    m.add_bytecode("some_one", TypeDesc::Unit, 0, instrs).expect("add");
    let got = call_global(&mut m, "some_one", TypeDesc::Unit, &[]);
    let expected = m.new_data(1, &vec![Value::Int(1)]).expect("expected");
    assert!(m.value_eq(got, expected, 64));
    let other = m.new_data(0, &vec![Value::Int(1)]).expect("other");
    assert!(!m.value_eq(got, other, 64));
}

#[test]
fn string_constants_are_pushed() {
    let mut m = VM::new();
    let cf = vm::code::CompiledFunction {
        id: m.symbol("hello"),
        typ: TypeDesc::Str,
        args: 0,
        instructions: vec![Instruction::PushString(0)],
        inner_functions: vec![],
        strings: vec![String::from("hi there")],
    };
    let fref = m.new_function(&cf).expect("load");
    let f = m.new_closure(fref, vec![]).expect("closure");
    m.push(f);
    assert!(matches!(m.call_function(0, FUEL), Ok(Run::Done)));
    let got = m.pop();
    match got {
        Value::String(sr) => {
            let s = m.root_string(sr);
            assert_eq!(s, "hi there");
            m.release_root();
        }
        other => panic!("expected a string, got {:?}", other),
    }
}

#[test]
fn recursive_closure_group_via_close_closure() {
    // even n = if n == 0 then 1 else odd (n - 1), with odd captured as an
    // upvalue backfilled by CloseClosure; odd n = even (n - 1)
    let mut m = VM::new();
    let even = vm::code::CompiledFunction {
        id: m.symbol("group.even"),
        typ: TypeDesc::Int,
        args: 1,
        instructions: vec![
            Instruction::Push(0),
            Instruction::PushInt(0),
            Instruction::IntEQ,
            Instruction::CJump(9),
            Instruction::PushUpVar(0),
            Instruction::Push(0),
            Instruction::PushInt(1),
            Instruction::SubtractInt,
            Instruction::TailCall(1),
            Instruction::PushInt(1),
        ],
        inner_functions: vec![],
        strings: vec![],
    };
    let odd = vm::code::CompiledFunction {
        id: m.symbol("group.odd"),
        typ: TypeDesc::Int,
        args: 1,
        instructions: vec![
            Instruction::Push(0),
            Instruction::PushInt(0),
            Instruction::IntEQ,
            Instruction::CJump(9),
            Instruction::PushUpVar(0),
            Instruction::Push(0),
            Instruction::PushInt(1),
            Instruction::SubtractInt,
            Instruction::TailCall(1),
            Instruction::PushInt(0),
        ],
        inner_functions: vec![],
        strings: vec![],
    };
    // driver: NewClosure even/1, NewClosure odd/1, then backfill: odd
    // captures even, even captures odd; finally call even on the argument
    let driver = vm::code::CompiledFunction {
        id: m.symbol("group"),
        typ: TypeDesc::Int,
        args: 1,
        instructions: vec![
            Instruction::NewClosure(0, 1), // slot 1: even, placeholder upvalue
            Instruction::NewClosure(1, 1), // slot 2: odd, placeholder upvalue
            Instruction::Push(1),          // the even closure again
            Instruction::Push(2),          // its upvalue: odd
            Instruction::CloseClosure(1),  // backfill even, drop the copy
            Instruction::Push(2),          // the odd closure again
            Instruction::Push(1),          // its upvalue: even
            Instruction::CloseClosure(1),  // backfill odd, drop the copy
            Instruction::Push(1),          // even
            Instruction::Push(0),          // n
            Instruction::Call(1),
        ],
        inner_functions: vec![even, odd],
        strings: vec![],
    };
    let fref = m.new_function(&driver).expect("load");
    let f = m.new_closure(fref, vec![]).expect("closure");
    m.push(f);
    m.push(Value::Int(6));
    assert!(matches!(m.call_function(1, FUEL), Ok(Run::Done)));
    let got = m.pop();
    assert_eq!(got, Value::Int(1));
}

#[test]
fn over_applying_a_native_reapplies_the_excess() {
    // a native function of arity 1 called with two arguments: the excess is
    // bundled, the native call returns a closure, and the bundle is
    // re-applied to it
    let mut m = VM::new();
    let add5 = vm::code::CompiledFunction {
        id: m.symbol("add5"),
        typ: TypeDesc::Int,
        args: 1,
        instructions: vec![
            Instruction::Push(0),
            Instruction::PushInt(5),
            Instruction::AddInt,
        ],
        inner_functions: vec![],
        strings: vec![],
    };
    let fref = m.new_function(&add5).expect("load");
    let adder = m.new_closure(fref, vec![]).expect("closure");
    let ext = m.new_extern_function("give_adder", 1, 0).expect("extern");

    m.push(ext);
    m.push(Value::Int(0));
    m.push(Value::Int(37));
    assert!(matches!(
        m.call_function(2, 1_000_000),
        Ok(Run::AwaitNative(_))
    ));
    // the host ignores its argument and hands back the adder
    let _selector = m.pop();
    m.push(adder);
    m.resume_native(vm::value::Status::Success).expect("resume");
    assert!(matches!(m.execute(1_000_000), Ok(Run::Done)));
    assert_eq!(m.pop(), Value::Int(42));
}
