use vm::code::{CompiledFunction, Instruction};
use vm::machine::{Run, VM};
use vm::value::{Callable, Status, TypeDesc, Value};
use vm::{Error, Fault};

const FUEL: u64 = 1_000_000;

#[test]
fn define_and_get_global() {
    let mut m = VM::new();
    m.define_global("answer", TypeDesc::Int, Value::Int(42)).expect("define");
    let v = m.get_global("answer", TypeDesc::Int).expect("get");
    assert_eq!(v, Value::Int(42));
}

#[test]
fn duplicate_global_is_rejected() {
    let mut m = VM::new();
    m.define_global("x", TypeDesc::Int, Value::Int(1)).expect("define");
    match m.define_global("x", TypeDesc::Int, Value::Int(2)) {
        Err(Error::Message(msg)) => assert_eq!(msg, "x is already defined"),
        other => panic!("expected a message error, got {:?}", other),
    }
    assert_eq!(m.get_global("x", TypeDesc::Int).expect("get"), Value::Int(1));
}

#[test]
fn get_global_checks_recorded_type() {
    let mut m = VM::new();
    m.define_global("x", TypeDesc::Int, Value::Int(1)).expect("define");
    assert!(m.get_global("x", TypeDesc::Float).is_err());
    assert!(m.get_global("missing", TypeDesc::Int).is_err());
    assert!(m.global_exists("x"));
    assert!(!m.global_exists("missing"));
}

#[test]
fn register_type_rejects_duplicates() {
    let mut m = VM::new();
    let t = m.register_type("Lazy").expect("register");
    assert_eq!(t, TypeDesc::Named(0));
    assert!(m.register_type("Lazy").is_err());
    let u = m.register_type("Channel").expect("register");
    assert_eq!(u, TypeDesc::Named(1));
    assert_eq!(m.get_type("Lazy"), Some(TypeDesc::Named(0)));
    assert_eq!(m.get_type("Other"), None);
}

#[test]
fn interning_is_idempotent() {
    let mut m = VM::new();
    let a = m.intern("shared").expect("intern");
    let b = m.intern("shared").expect("intern");
    let c = m.intern("different").expect("intern");
    assert_eq!(a, b);
    assert_ne!(a, c);
    let s = m.root_string(a);
    assert_eq!(s, "shared");
    m.release_root();
}

#[test]
fn native_error_propagates_its_message() {
    // a native function that pushes a string and reports failure: the
    // propagated error carries exactly that string's contents
    let mut m = VM::new();
    let f = m.new_extern_function("boomer", 1, 7).expect("extern");
    m.push(f);
    m.push(Value::Int(1));
    let e = match m.call_function(1, FUEL) {
        Ok(Run::AwaitNative(e)) => e,
        other => panic!("expected a native suspension, got {:?}", other),
    };
    // the host runs the callback: it fails, leaving a message on top
    let sr = m.intern("boom").expect("intern");
    let _ = e;
    m.push(Value::String(sr));
    match m.resume_native(Status::Error) {
        Err(Error::Message(msg)) => assert_eq!(msg, "boom"),
        other => panic!("expected the propagated message, got {:?}", other),
    }
}

#[test]
fn native_success_leaves_one_result() {
    let mut m = VM::new();
    let f = m.new_extern_function("add_one", 1, 3).expect("extern");
    m.push(f);
    m.push(Value::Int(41));
    assert!(matches!(m.call_function(1, FUEL), Ok(Run::AwaitNative(_))));
    // the host reads the argument from the callee's frame and leaves the
    // result on top
    let arg = m.pop();
    match arg {
        Value::Int(x) => m.push(Value::Int(x + 1)),
        other => panic!("expected an integer argument, got {:?}", other),
    }
    m.resume_native(Status::Success).expect("resume");
    assert!(matches!(m.execute(FUEL), Ok(Run::Done)));
    assert_eq!(m.pop(), Value::Int(42));
}

#[test]
fn test_tag_reports_error_on_non_data() {
    let mut m = VM::new();
    m.push(Value::Int(5));
    match m.test_tag(0) {
        Err(Error::Message(msg)) => assert_eq!(msg, "Op TestTag called on non data type"),
        other => panic!("expected a recoverable error, got {:?}", other),
    }
}

#[test]
fn test_tag_is_one_iff_tags_match() {
    let mut m = VM::new();
    let d = m.new_data(3, &vec![Value::Int(9)]).expect("data");
    m.push(d);
    m.test_tag(3).expect("matching tag");
    assert_eq!(m.pop(), Value::Int(1));
    m.test_tag(4).expect("differing tag");
    assert_eq!(m.pop(), Value::Int(0));
}

#[test]
fn get_field_round_trips_constructed_fields() {
    let mut m = VM::new();
    let fields = vec![Value::Int(10), Value::Int(20), Value::Int(30)];
    for i in 0..3usize {
        let d = m.new_data(0, &fields).expect("data");
        m.push(d);
        m.get_field(i).expect("in range");
        assert_eq!(m.pop(), fields[i]);
    }
    let d = m.new_data(0, &fields).expect("data");
    m.push(d);
    match m.get_field(3) {
        Err(Error::Fault(Fault::FieldRange)) => {}
        other => panic!("expected a field-range fault, got {:?}", other),
    }
    m.push(Value::Int(7));
    assert!(matches!(m.get_field(0), Err(Error::Message(_))));
}

#[test]
fn split_pushes_all_fields_in_order() {
    let mut m = VM::new();
    let d = m
        .new_data(2, &vec![Value::Int(1), Value::Int(2), Value::Int(3)])
        .expect("data");
    m.push(d);
    m.split_data().expect("split");
    assert_eq!(m.pop(), Value::Int(3));
    assert_eq!(m.pop(), Value::Int(2));
    assert_eq!(m.pop(), Value::Int(1));
    m.push(Value::Float(0.5f64.to_bits()));
    assert!(matches!(m.split_data(), Err(Error::Message(_))));
}

#[test]
fn set_index_and_get_index() {
    let mut m = VM::new();
    let d = m.new_data(0, &vec![Value::Int(1), Value::Int(2)]).expect("data");
    m.push(d);
    m.push(Value::Int(1));
    m.push(Value::Int(99));
    m.set_index().expect("set");
    m.push(d);
    m.push(Value::Int(1));
    m.get_index().expect("get");
    assert_eq!(m.pop(), Value::Int(99));
}

#[test]
fn calling_a_non_callable_is_a_recoverable_error() {
    let mut m = VM::new();
    m.push(Value::Int(3));
    m.push(Value::Int(4));
    match m.call_function(1, FUEL) {
        Err(Error::Message(_)) => {}
        other => panic!("expected a message error, got {:?}", other),
    }
}

#[test]
fn collection_frees_unreachable_and_keeps_rooted() {
    let mut m = VM::with_heap_capacity(64);
    let keep = m.new_data(1, &vec![Value::Int(5)]).expect("data");
    m.root_value(keep);
    for _ in 0..10 {
        let _garbage = m.new_data(0, &vec![Value::Int(0)]).expect("data");
    }
    let live_before = m.heap.live;
    m.collect();
    assert!(m.heap.live < live_before);
    let expected = m.new_data(1, &vec![Value::Int(5)]).expect("data");
    assert!(m.value_eq(keep, expected, 8));
    m.release_value();
}

#[test]
fn allocation_collects_when_heap_is_full() {
    // a tiny heap: a program that churns through short-lived allocations
    // completes only because collection reclaims them
    let mut m = VM::with_heap_capacity(8);
    let mut instrs = Vec::new();
    for _ in 0..30 {
        instrs.push(Instruction::Construct(0, 0));
        instrs.push(Instruction::Pop(1));
    }
    instrs.push(Instruction::PushInt(42));
    m.add_bytecode("churn", TypeDesc::Int, 0, instrs).expect("add");
    let f = m.get_global("churn", TypeDesc::Int).expect("global");
    m.push(f);
    assert!(matches!(m.call_function(0, FUEL), Ok(Run::Done)));
    assert_eq!(m.pop(), Value::Int(42));
    assert!(m.heap.live <= 8);
}

#[test]
fn userdata_roots_and_downcasts() {
    let mut m = VM::new();
    let t = m.register_type("Handle").expect("register");
    let tid = match t {
        TypeDesc::Named(i) => i,
        _ => panic!("expected a named type"),
    };
    let v = m.new_userdata(tid, 0xBEE5).expect("userdata");
    let r = match v {
        Value::Userdata(r) => r,
        _ => panic!("expected userdata"),
    };
    let u = m.root(r).expect("boxed payload");
    assert_eq!(u.type_id, tid);
    assert_eq!(u.data, 0xBEE5);
    m.release_root();
    assert!(m.value_eq(v, v, 4));
}

#[test]
fn value_eq_distinguishes_strings_and_kinds() {
    let mut m = VM::new();
    let a = m.intern("left").expect("intern");
    let b = m.intern("left").expect("intern");
    let c = m.intern("right").expect("intern");
    assert!(m.value_eq(Value::String(a), Value::String(b), 4));
    assert!(!m.value_eq(Value::String(a), Value::String(c), 4));
    assert!(!m.value_eq(Value::String(a), Value::Int(0), 4));
    assert!(m.value_eq(Value::Float(2.5f64.to_bits()), Value::Float(2.5f64.to_bits()), 4));
    assert!(!m.value_eq(Value::Int(1), Value::Float(1.0f64.to_bits()), 4));
}

#[test]
fn out_of_fuel_is_reported() {
    let mut m = VM::new();
    let instrs = vec![Instruction::Jump(0)];
    m.add_bytecode("spin", TypeDesc::Unit, 0, instrs).expect("add");
    let f = m.get_global("spin", TypeDesc::Unit).expect("global");
    m.push(f);
    assert!(matches!(m.call_function(0, 1000), Ok(Run::OutOfFuel)));
}

#[test]
fn symbols_are_interned_once() {
    let mut m = VM::new();
    let a = m.symbol("alpha");
    let b = m.symbol("beta");
    let c = m.symbol("alpha");
    assert_eq!(a, c);
    assert_ne!(a, b);
    assert_eq!(m.symbol_string(a), "alpha");
    assert_eq!(m.symbol_string(b), "beta");
}

#[test]
fn call_module_runs_io_actions() {
    // a module of IO type evaluates to an action; running the module calls
    // the action once with a unit argument
    let mut m = VM::new();
    let action = CompiledFunction {
        id: m.symbol("io_prog.action"),
        typ: TypeDesc::Int,
        args: 1,
        instructions: vec![Instruction::PushInt(42)],
        inner_functions: vec![],
        strings: vec![],
    };
    let module = CompiledFunction {
        id: m.symbol("io_prog"),
        typ: TypeDesc::Io,
        args: 0,
        instructions: vec![Instruction::MakeClosure(0, 0)],
        inner_functions: vec![action],
        strings: vec![],
    };
    let fref = m.new_function(&module).expect("load");
    let clv = m.new_closure(fref, vec![]).expect("closure");
    let cl = match clv {
        Value::Closure(cl) => cl,
        _ => panic!("expected a closure"),
    };
    assert!(matches!(m.call_module(TypeDesc::Io, cl, FUEL), Ok(Run::Done)));
    assert_eq!(m.pop(), Value::Int(42));

    // the same module under a non-IO type just evaluates to the action
    let fref2 = m.new_function(&module).expect("load");
    let clv2 = m.new_closure(fref2, vec![]).expect("closure");
    let cl2 = match clv2 {
        Value::Closure(cl2) => cl2,
        _ => panic!("expected a closure"),
    };
    assert!(matches!(m.call_module(TypeDesc::Int, cl2, FUEL), Ok(Run::Done)));
    assert!(matches!(m.pop(), Value::Closure(_)));
}

#[test]
fn lazy_cells_box_a_value() {
    let mut m = VM::new();
    let lv = m.new_lazy(Value::Int(9)).expect("lazy");
    assert!(matches!(lv, Value::Lazy(_)));
    assert!(!m.value_eq(lv, Value::Int(9), 4));
}

#[test]
fn current_frame_reports_the_top_record() {
    let mut m = VM::new();
    let f = m.current_frame();
    assert_eq!(f.offset, 0);
    assert!(f.function.is_none());
    assert!(!f.excess);
}

#[test]
fn callables_report_name_and_arity() {
    let mut m = VM::new();
    let f = m.new_extern_function("print_int", 2, 1).expect("extern");
    let r = match f {
        Value::Function(r) => r,
        _ => panic!("expected a native function"),
    };
    let c = Callable::Extern(r);
    assert_eq!(m.callable_args(c), 2);
    let name = m.callable_name(c).expect("named");
    assert_eq!(m.symbol_string(name), "print_int");

    let cf = CompiledFunction {
        id: m.symbol("twice"),
        typ: TypeDesc::Int,
        args: 1,
        instructions: vec![Instruction::Push(0), Instruction::Push(0), Instruction::AddInt],
        inner_functions: vec![],
        strings: vec![],
    };
    let fref = m.new_function(&cf).expect("load");
    let clv = m.new_closure(fref, vec![]).expect("closure");
    let cl = match clv {
        Value::Closure(cl) => cl,
        _ => panic!("expected a closure"),
    };
    assert_eq!(m.callable_args(Callable::Closure(cl)), 1);
}

#[test]
fn filename_to_module_strips_extension_and_dots_separators() {
    assert_eq!(vm::machine::filename_to_module("std/prelude.hs"), "std.prelude");
    assert_eq!(vm::machine::filename_to_module("scripts/util/vec.glu"), "scripts.util.vec");
    assert_eq!(vm::machine::filename_to_module("main.hs"), "main");
}
