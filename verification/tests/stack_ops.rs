use vm::machine::VM;
use vm::value::Value;

#[test]
fn insert_stack_slice() {
    let mut m = VM::new();
    m.stack.frame(0, None);
    m.stack.push(Value::Int(0));
    m.stack.insert_slice(0, &vec![Value::Int(2), Value::Int(1)]);
    let b = m.stack.base_offset();
    assert_eq!(
        &m.stack.values[b..],
        &[Value::Int(2), Value::Int(1), Value::Int(0)]
    );
    m.stack.enter_scope(2, None);
    m.stack.insert_slice(1, &vec![Value::Int(10)]);
    let b = m.stack.base_offset();
    assert_eq!(
        &m.stack.values[b..],
        &[Value::Int(1), Value::Int(10), Value::Int(0)]
    );
    m.stack.insert_slice(1, &vec![]);
    let b = m.stack.base_offset();
    assert_eq!(
        &m.stack.values[b..],
        &[Value::Int(1), Value::Int(10), Value::Int(0)]
    );
    m.stack.insert_slice(2, &vec![Value::Int(4), Value::Int(5), Value::Int(6)]);
    let b = m.stack.base_offset();
    assert_eq!(
        &m.stack.values[b..],
        &[
            Value::Int(1),
            Value::Int(10),
            Value::Int(4),
            Value::Int(5),
            Value::Int(6),
            Value::Int(0)
        ]
    );
    m.stack.exit_scope();
}

#[test]
fn value_size() {
    assert!(std::mem::size_of::<Value>() <= 16);
}

#[test]
fn remove_range_compacts() {
    let mut m = VM::new();
    for i in 0..6 {
        m.stack.push(Value::Int(i));
    }
    m.stack.remove_range(1, 3);
    let b = m.stack.base_offset();
    assert_eq!(
        &m.stack.values[b..],
        &[Value::Int(0), Value::Int(3), Value::Int(4), Value::Int(5)]
    );
}

#[test]
fn push_pop_round() {
    let mut m = VM::new();
    m.push(Value::Int(7));
    m.push(Value::Float(1.5f64.to_bits()));
    assert_eq!(m.pop(), Value::Float(1.5f64.to_bits()));
    assert_eq!(m.pop(), Value::Int(7));
}
