//! The interpreter: runs bytecode that loads constants onto a stack.
use vstd::prelude::*;
use vstd::bytes::{spec_u64_from_le_bytes, spec_u64_to_le_bytes, lemma_auto_spec_u64_to_from_le_bytes, u64_from_le_bytes};
use crate::agent::Agent;
use crate::text::{decimal, push_decimal, string_of_str};

verus! {

/// The instructions of the bytecode.
#[derive(Debug, PartialEq, Eq, Clone, Copy, Structural)]
pub enum OpCode {
    Noop,
    ConstInt,
    ConstDouble,
    ConstNull,
    ConstTrue,
    ConstFalse,
    ConstString,
}

/// The instruction a byte stands for: bytes 0 to 6 in the order above.
pub open spec fn opcode_of(b: u8) -> Option<OpCode> {
    if b == 0 { Some(OpCode::Noop) }
    else if b == 1 { Some(OpCode::ConstInt) }
    else if b == 2 { Some(OpCode::ConstDouble) }
    else if b == 3 { Some(OpCode::ConstNull) }
    else if b == 4 { Some(OpCode::ConstTrue) }
    else if b == 5 { Some(OpCode::ConstFalse) }
    else if b == 6 { Some(OpCode::ConstString) }
    else { None }
}

impl OpCode {
    /// The instruction the byte `b` stands for, if any.
    pub fn from_byte(b: u8) -> (r: Option<OpCode>)
        ensures
            r == opcode_of(b),
    {
        if b == 0 { Some(OpCode::Noop) }
        else if b == 1 { Some(OpCode::ConstInt) }
        else if b == 2 { Some(OpCode::ConstDouble) }
        else if b == 3 { Some(OpCode::ConstNull) }
        else if b == 4 { Some(OpCode::ConstTrue) }
        else if b == 5 { Some(OpCode::ConstFalse) }
        else if b == 6 { Some(OpCode::ConstString) }
        else { None }
    }
}

/// A compiled unit: its bytecode.
pub struct CodeObject {
    pub instructions: Vec<u8>,
}

/// A value on the interpreter's stack. A floating-point number is held by
/// the bits of its IEEE 754 binary64 form.
#[derive(Debug, PartialEq, Clone)]
pub enum Value {
    Null,
    Boolean(bool),
    Integer(i64),
    Double(u64),
    String(std::string::String),
}

/// The mathematical form of a value.
pub enum ValueV {
    Null,
    Boolean(bool),
    Integer(i64),
    Double(u64),
    String(Seq<char>),
}

impl View for Value {
    type V = ValueV;

    open spec fn view(&self) -> ValueV {
        match self {
            Value::Null => ValueV::Null,
            Value::Boolean(b) => ValueV::Boolean(*b),
            Value::Integer(n) => ValueV::Integer(*n),
            Value::Double(bits) => ValueV::Double(*bits),
            Value::String(s) => ValueV::String(s@),
        }
    }
}

pub open spec fn values_view(v: Seq<Value>) -> Seq<ValueV> {
    v.map_values(|x: Value| x@)
}

/// Why the interpreter stopped.
#[derive(Debug, PartialEq, Eq, Clone, Copy, Structural)]
pub enum InterpretError {
    /// An instruction's operand runs past the end of the bytecode.
    UnexpectedEndOfBytecode,
    /// A byte that stands for no instruction.
    InvalidOpCode(u8),
    /// A string constant whose index is past the end of the agent's table.
    /// The interpreter has no answer here and stops the program.
    StringIndexOutOfRange(u64),
}

impl InterpretError {
    /// Whether the interpreter stops the program on this error rather than
    /// reporting it.
    pub open spec fn halts(self) -> bool {
        self is StringIndexOutOfRange
    }
}

/// The message of an error.
pub open spec fn interpret_error_message(e: InterpretError) -> Seq<char> {
    match e {
        InterpretError::UnexpectedEndOfBytecode => "Unexpected end of bytecode"@,
        InterpretError::InvalidOpCode(b) => "Unknown opcode "@ + decimal(b as nat),
        InterpretError::StringIndexOutOfRange(i) => "String index out of range: "@ + decimal(i as nat),
    }
}

impl InterpretError {
    /// The message of this error.
    pub fn message(&self) -> (r: std::string::String)
        ensures
            r@ == interpret_error_message(*self),
    {
        match self {
            InterpretError::UnexpectedEndOfBytecode => string_of_str("Unexpected end of bytecode"),
            InterpretError::InvalidOpCode(b) => {
                let mut s = string_of_str("Unknown opcode ");
                push_decimal(&mut s, *b as u64);
                s
            },
            InterpretError::StringIndexOutOfRange(i) => {
                let mut s = string_of_str("String index out of range: ");
                push_decimal(&mut s, *i);
                s
            },
        }
    }
}

/// The little-endian number in the 8 bytes of `code` after `ip`.
pub open spec fn operand(code: Seq<u8>, ip: int) -> u64 {
    spec_u64_from_le_bytes(code.subrange(ip + 1, ip + 9))
}

/// Running `code` from `ip` with the string table `table`: the values
/// pushed, in order, and how the run ends.
pub open spec fn run(code: Seq<u8>, ip: int, table: Seq<Seq<char>>) -> (Seq<ValueV>, Result<(), InterpretError>)
    decreases code.len() - ip,
{
    if ip < 0 || ip >= code.len() {
        (Seq::empty(), Ok(()))
    } else {
        match opcode_of(code[ip]) {
            None => (Seq::empty(), Err(InterpretError::InvalidOpCode(code[ip]))),
            Some(op) => match op {
                OpCode::Noop => run(code, ip + 1, table),
                OpCode::ConstNull => push_then(ValueV::Null, run(code, ip + 1, table)),
                OpCode::ConstTrue => push_then(ValueV::Boolean(true), run(code, ip + 1, table)),
                OpCode::ConstFalse => push_then(ValueV::Boolean(false), run(code, ip + 1, table)),
                _ => if ip + 9 > code.len() {
                    (Seq::empty(), Err(InterpretError::UnexpectedEndOfBytecode))
                } else {
                    let n = operand(code, ip);
                    match op {
                        OpCode::ConstInt => push_then(ValueV::Integer(n as i64), run(code, ip + 9, table)),
                        OpCode::ConstDouble => push_then(ValueV::Double(n), run(code, ip + 9, table)),
                        _ => if n < table.len() {
                            push_then(ValueV::String(table[n as int]), run(code, ip + 9, table))
                        } else {
                            (Seq::empty(), Err(InterpretError::StringIndexOutOfRange(n)))
                        },
                    }
                },
            },
        }
    }
}

/// `r` with the value `v` pushed first.
pub open spec fn push_then(v: ValueV, r: (Seq<ValueV>, Result<(), InterpretError>)) -> (Seq<ValueV>, Result<(), InterpretError>) {
    (seq![v] + r.0, r.1)
}


proof fn lemma_run_shift(a: Seq<u8>, b: Seq<u8>, j: int, table: Seq<Seq<char>>)
    requires
        0 <= j <= b.len(),
    ensures
        run(a + b, a.len() + j, table) == run(b, j, table),
    decreases b.len() - j,
{
    let c = a + b;
    let ip = a.len() + j;
    if j < b.len() {
        assert(c[ip] == b[j]);
        if j + 9 <= b.len() {
            assert(c.subrange(ip + 1, ip + 9) =~= b.subrange(j + 1, j + 9));
            lemma_run_shift(a, b, j + 9, table);
        }
        lemma_run_shift(a, b, j + 1, table);
    }
}

proof fn lemma_run_concat_from(a: Seq<u8>, b: Seq<u8>, ip: int, table: Seq<Seq<char>>)
    requires
        0 <= ip <= a.len(),
        run(a, ip, table).1 is Ok,
    ensures
        run(a + b, ip, table) == (run(a, ip, table).0 + run(b, 0, table).0, run(b, 0, table).1),
    decreases a.len() - ip,
{
    let c = a + b;
    if ip == a.len() {
        lemma_run_shift(a, b, 0, table);
        assert(Seq::<ValueV>::empty() + run(b, 0, table).0 =~= run(b, 0, table).0);
    } else {
        assert(c[ip] == a[ip]);
        let op = opcode_of(a[ip]);
        if ip + 9 <= a.len() {
            assert(c.subrange(ip + 1, ip + 9) =~= a.subrange(ip + 1, ip + 9));
        }
        match op {
            Some(OpCode::Noop) => {
                lemma_run_concat_from(a, b, ip + 1, table);
            },
            Some(OpCode::ConstNull) | Some(OpCode::ConstTrue) | Some(OpCode::ConstFalse) => {
                lemma_run_concat_from(a, b, ip + 1, table);
                let v = run(a + b, ip, table).0[0];
                assert(seq![v] + (run(a, ip + 1, table).0 + run(b, 0, table).0)
                    =~= (seq![v] + run(a, ip + 1, table).0) + run(b, 0, table).0);
            },
            Some(_) => {
                if ip + 9 <= a.len() {
                    lemma_run_concat_from(a, b, ip + 9, table);
                    let v = run(a + b, ip, table).0[0];
                    assert(seq![v] + (run(a, ip + 9, table).0 + run(b, 0, table).0)
                        =~= (seq![v] + run(a, ip + 9, table).0) + run(b, 0, table).0);
                }
            },
            None => {},
        }
    }
}

/// Running two programs in turn is running the one that is the first
/// followed by the second, where the first runs to its end without error.
pub proof fn lemma_run_concat(a: Seq<u8>, b: Seq<u8>, table: Seq<Seq<char>>)
    requires
        run(a, 0, table).1 is Ok,
    ensures
        run(a + b, 0, table) == (run(a, 0, table).0 + run(b, 0, table).0, run(b, 0, table).1),
{
    lemma_run_concat_from(a, b, 0, table);
}

/// The program `[op] ++ operand ++ rest`, where `operand` is the 8 bytes
/// of `x` with the lowest first.
pub open spec fn with_operand(op: u8, x: u64, rest: Seq<u8>) -> Seq<u8> {
    seq![op] + spec_u64_to_le_bytes(x) + rest
}

proof fn lemma_with_operand(op: u8, x: u64, rest: Seq<u8>, table: Seq<Seq<char>>)
    ensures
        with_operand(op, x, rest).len() == rest.len() + 9,
        with_operand(op, x, rest)[0] == op,
        operand(with_operand(op, x, rest), 0) == x,
        run(with_operand(op, x, rest), 9, table) == run(rest, 0, table),
{
    lemma_auto_spec_u64_to_from_le_bytes();
    let c = with_operand(op, x, rest);
    let head = seq![op] + spec_u64_to_le_bytes(x);
    assert(c.subrange(1, 9) =~= spec_u64_to_le_bytes(x));
    assert(c =~= head + rest);
    lemma_run_shift(head, rest, 0, table);
}

/// An integer constant loads exactly the `i64` whose two's-complement
/// little-endian bytes follow the instruction (byte 1), for every `i64`,
/// and the run goes on after those 8 bytes.
pub proof fn lemma_const_int_loads_its_operand(v: i64, rest: Seq<u8>, table: Seq<Seq<char>>)
    ensures
        run(with_operand(1, v as u64, rest), 0, table)
            == (seq![ValueV::Integer(v)] + run(rest, 0, table).0, run(rest, 0, table).1),
{
    lemma_with_operand(1, v as u64, rest, table);
    assert((v as u64) as i64 == v) by (bit_vector);
}

/// A floating-point constant (byte 2) loads exactly the 8 bytes that follow
/// it, as the bits of a binary64 number, and the run goes on after them.
pub proof fn lemma_const_double_loads_its_operand(bits: u64, rest: Seq<u8>, table: Seq<Seq<char>>)
    ensures
        run(with_operand(2, bits, rest), 0, table)
            == (seq![ValueV::Double(bits)] + run(rest, 0, table).0, run(rest, 0, table).1),
{
    lemma_with_operand(2, bits, rest, table);
}

/// A string constant (byte 6) loads the string the table holds at the
/// index that follows it; an index past the table's end stops the run with
/// that index and loads nothing.
pub proof fn lemma_const_string_loads_from_table(i: u64, rest: Seq<u8>, table: Seq<Seq<char>>)
    ensures
        i < table.len() ==> run(with_operand(6, i, rest), 0, table)
            == (seq![ValueV::String(table[i as int])] + run(rest, 0, table).0, run(rest, 0, table).1),
        i >= table.len() ==> run(with_operand(6, i, rest), 0, table)
            == (Seq::<ValueV>::empty(), Err::<(), InterpretError>(InterpretError::StringIndexOutOfRange(i))),
{
    lemma_with_operand(6, i, rest, table);
}

/// The one-byte instructions: 0 loads nothing, 3 loads null, 4 true and 5
/// false; any byte past 6 stops the run with that byte; and an instruction
/// that needs 8 more bytes (1, 2, 6) with fewer left stops it too.
pub proof fn lemma_single_byte_instructions(b: u8, rest: Seq<u8>, table: Seq<Seq<char>>)
    ensures
        b == 0 ==> run(seq![b] + rest, 0, table) == run(rest, 0, table),
        b == 3 ==> run(seq![b] + rest, 0, table)
            == (seq![ValueV::Null] + run(rest, 0, table).0, run(rest, 0, table).1),
        b == 4 ==> run(seq![b] + rest, 0, table)
            == (seq![ValueV::Boolean(true)] + run(rest, 0, table).0, run(rest, 0, table).1),
        b == 5 ==> run(seq![b] + rest, 0, table)
            == (seq![ValueV::Boolean(false)] + run(rest, 0, table).0, run(rest, 0, table).1),
        b > 6 ==> run(seq![b] + rest, 0, table)
            == (Seq::<ValueV>::empty(), Err::<(), InterpretError>(InterpretError::InvalidOpCode(b))),
        (b == 1 || b == 2 || b == 6) && rest.len() < 8 ==> run(seq![b] + rest, 0, table)
            == (Seq::<ValueV>::empty(), Err::<(), InterpretError>(InterpretError::UnexpectedEndOfBytecode)),
{
    let c = seq![b] + rest;
    assert(c[0] == b);
    lemma_run_shift(seq![b], rest, 0, table);
}

proof fn lemma_values_view_push(v: Seq<Value>, x: Value)
    ensures
        values_view(v.push(x)) == values_view(v).push(x@),
{
    assert(values_view(v.push(x)) =~= values_view(v).push(x@));
}

/// The operand of the instruction at `ip`: the 8 bytes after it, read as a
/// little-endian number.
fn read_operand(code: &Vec<u8>, ip: usize) -> (r: u64)
    requires
        ip + 9 <= code@.len(),
    ensures
        r == operand(code@, ip as int),
{
    let n = code.len();
    let mut bytes: Vec<u8> = Vec::new();
    let mut k: usize = 0;
    while k < 8
        invariant
            k <= 8,
            n == code@.len(),
            ip + 9 <= code@.len(),
            bytes@ == code@.subrange(ip + 1, ip + 1 + k),
        decreases 8 - k,
    {
        bytes.push(code[ip + 1 + k]);
        k += 1;
        assert(bytes@ =~= code@.subrange(ip + 1, ip + 1 + k));
    }
    u64_from_le_bytes(bytes.as_slice())
}

/// Runs bytecode; the values it loads go onto a stack.
pub struct Interpreter<'a> {
    agent: &'a mut Agent,
    stack: Vec<Value>,
}

impl<'a> Interpreter<'a> {
    /// The strings the agent holds, which string constants index.
    pub closed spec fn table(&self) -> Seq<Seq<char>> {
        self.agent.table()
    }

    /// The stack, bottom first.
    pub closed spec fn stack_view(&self) -> Seq<ValueV> {
        values_view(self.stack@)
    }

    /// An interpreter with an empty stack, reading strings from `agent`.
    pub fn new(agent: &'a mut Agent) -> (i: Interpreter<'a>)
        ensures
            i.table() == old(agent).table(),
            i.stack_view() == Seq::<ValueV>::empty(),
    {
        let i = Interpreter { agent, stack: Vec::new() };
        assert(i.stack_view() =~= Seq::<ValueV>::empty());
        i
    }

    /// The stack, bottom first.
    pub fn stack(&self) -> (r: &Vec<Value>)
        ensures
            values_view(r@) == self.stack_view(),
    {
        &self.stack
    }

    /// Runs `code_object`, with errors as values: pushes the values its
    /// instructions load, in order, until the end of the bytecode or an
    /// error. Where the interpreter has no answer (see
    /// `InterpretError::halts`), the error says so.
    pub fn try_evaluate(&mut self, code_object: CodeObject) -> (r: Result<(), InterpretError>)
        ensures
            final(self).table() == old(self).table(),
            final(self).stack_view() == old(self).stack_view() + run(code_object.instructions@, 0, old(self).table()).0,
            r == run(code_object.instructions@, 0, old(self).table()).1,
    {
        let code = &code_object.instructions;
        let ghost table = self.table();
        let ghost start = self.stack_view();
        let ghost total = run(code@, 0, table);
        let n = code.len();
        let mut ip: usize = 0;
        let ghost mut pushed: Seq<ValueV> = Seq::empty();
        assert(total.0 =~= pushed + run(code@, 0, table).0);
        while ip < n
            invariant
                ip <= n == code@.len(),
                code@ == code_object.instructions@,
                self.table() == table,
                table == old(self).table(),
                start == old(self).stack_view(),
                self.stack_view() == start + pushed,
                total == run(code@, 0, table),
                total.0 == pushed + run(code@, ip as int, table).0,
                total.1 == run(code@, ip as int, table).1,
            decreases n - ip,
        {
            let ghost rest = run(code@, ip as int, table);
            let byte = code[ip];
            let decoded = OpCode::from_byte(byte);
            if decoded.is_none() {
                assert(rest == (Seq::<ValueV>::empty(), Err::<(), InterpretError>(InterpretError::InvalidOpCode(byte))));
                assert(pushed + Seq::<ValueV>::empty() =~= pushed);
                return Err(InterpretError::InvalidOpCode(byte));
            }
            let op = decoded.unwrap();
            let value = match op {
                OpCode::Noop => {
                    ip += 1;
                    continue;
                },
                OpCode::ConstNull => { ip += 1; Value::Null },
                OpCode::ConstTrue => { ip += 1; Value::Boolean(true) },
                OpCode::ConstFalse => { ip += 1; Value::Boolean(false) },
                _ => {
                    if n - ip < 9 {
                        assert(pushed + Seq::<ValueV>::empty() =~= pushed);
                        return Err(InterpretError::UnexpectedEndOfBytecode);
                    }
                    let operand = read_operand(code, ip);
                    ip += 9;
                    match op {
                        OpCode::ConstInt => Value::Integer(#[verifier::truncate] (operand as i64)),
                        OpCode::ConstDouble => Value::Double(operand),
                        _ => {
                            if operand < self.agent.string_table.len() as u64 {
                                Value::String(self.agent.string_table[operand as usize].clone())
                            } else {
                                assert(pushed + Seq::<ValueV>::empty() =~= pushed);
                                return Err(InterpretError::StringIndexOutOfRange(operand));
                            }
                        },
                    }
                },
            };
            let ghost before = self.stack@;
            self.stack.push(value);
            proof {
                lemma_values_view_push(before, value);
                assert(rest.0 == seq![value@] + run(code@, ip as int, table).0);
                assert(pushed + rest.0 =~= pushed.push(value@) + run(code@, ip as int, table).0);
                pushed = pushed.push(value@);
            }
        }
        assert(pushed + Seq::<ValueV>::empty() =~= pushed);
        Ok(())
    }

    /// Runs `code_object` as `try_evaluate` does, with an error given by its
    /// message. Not for bytecode on which the interpreter has no answer.
    pub fn evaluate(&mut self, code_object: CodeObject) -> (r: Result<(), std::string::String>)
        requires
            !(run(code_object.instructions@, 0, old(self).table()).1 matches Err(e) && e.halts()),
        ensures
            final(self).table() == old(self).table(),
            final(self).stack_view() == old(self).stack_view() + run(code_object.instructions@, 0, old(self).table()).0,
            match (r, run(code_object.instructions@, 0, old(self).table()).1) {
                (Ok(()), Ok(())) => true,
                (Err(m), Err(e)) => m@ == interpret_error_message(e),
                _ => false,
            },
    {
        match self.try_evaluate(code_object) {
            Ok(()) => Ok(()),
            Err(e) => Err(e.message()),
        }
    }
}

} // verus!
