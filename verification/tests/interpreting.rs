use lib::agent::Agent;
use lib::interpreter::{CodeObject, InterpretError, Interpreter, OpCode, Value};

fn code(bytes: &[u8]) -> CodeObject {
    CodeObject { instructions: bytes.to_vec() }
}

#[test]
fn evaluate_constants() {
    let mut agent = Agent::new();
    agent.intern_string("zero");
    agent.intern_string("one");
    let mut interp = Interpreter::new(&mut agent);
    let mut bytes = vec![0u8, 3, 4, 5];
    bytes.push(1);
    bytes.extend_from_slice(&(-2i64).to_le_bytes());
    bytes.push(2);
    bytes.extend_from_slice(&1.5f64.to_bits().to_le_bytes());
    bytes.push(6);
    bytes.extend_from_slice(&1u64.to_le_bytes());
    assert_eq!(interp.evaluate(code(&bytes)), Ok(()));
    assert_eq!(
        interp.stack(),
        &vec![
            Value::Null,
            Value::Boolean(true),
            Value::Boolean(false),
            Value::Integer(-2),
            Value::Double(1.5f64.to_bits()),
            Value::String("one".to_string()),
        ]
    );
}

#[test]
fn evaluate_errors() {
    let mut agent = Agent::new();
    let mut interp = Interpreter::new(&mut agent);
    assert_eq!(interp.evaluate(code(&[3, 9, 4])), Err("Unknown opcode 9".to_string()));
    assert_eq!(interp.stack(), &vec![Value::Null]);
    assert_eq!(interp.evaluate(code(&[4, 1, 1, 2])), Err("Unexpected end of bytecode".to_string()));
    assert_eq!(interp.stack(), &vec![Value::Null, Value::Boolean(true)]);
    let mut far = vec![6u8];
    far.extend_from_slice(&5u64.to_le_bytes());
    assert_eq!(interp.try_evaluate(code(&far)), Err(InterpretError::StringIndexOutOfRange(5)));
    assert_eq!(OpCode::from_byte(6), Some(OpCode::ConstString));
    assert_eq!(OpCode::from_byte(7), None);
}

#[test]
fn evaluate_in_turn_is_evaluate_joined() {
    let a = vec![1u8, 7, 0, 0, 0, 0, 0, 0, 0, 0, 3];
    let b = vec![5u8, 9];
    let mut agent1 = Agent::new();
    let mut one = Interpreter::new(&mut agent1);
    assert_eq!(one.evaluate(code(&a)), Ok(()));
    let r1 = one.evaluate(code(&b));
    let s1 = one.stack().clone();
    let mut agent2 = Agent::new();
    let mut two = Interpreter::new(&mut agent2);
    let mut ab = a.clone();
    ab.extend_from_slice(&b);
    let r2 = two.evaluate(code(&ab));
    assert_eq!(r1, r2);
    assert_eq!(&s1, two.stack());
    assert_eq!(s1, vec![Value::Integer(7), Value::Null, Value::Boolean(false)]);
}

#[test]
fn evaluate_empty_code_leaves_the_stack() {
    let mut agent = Agent::new();
    let mut interp = Interpreter::new(&mut agent);
    assert_eq!(interp.evaluate(code(&[])), Ok(()));
    assert!(interp.stack().is_empty());
}
