//! The register machine that runs the generated instructions: named registers holding
//! integers or floats, a byte memory with named variables, and printed output.
//!
//! Floating-point work (reading a float constant, writing one as text, arithmetic,
//! comparison and conversion) is done by the host: when an instruction needs it,
//! `VM::step` hands back the task, and the caller steps again with the answers so far.
//! A float is held as the bits of an IEEE-754 double.
use vstd::prelude::*;
use crate::text::{int_text, is_digit, char_digit, string_views, chars_of, string_of, push_int, owned, join};
use crate::scanner::{lines_of, lines_from, first_newline, lemma_first_newline, split_lines};
use std::collections::HashSet;

verus! {

// ---------------------------------------------------------------------------------
// Values, tasks and answers
// ---------------------------------------------------------------------------------

/// A register's value: an integer, or a float held as the bits of a double.
#[derive(Debug, Clone, Copy, PartialEq, Eq, Structural)]
pub enum Value {
    Int(i32),
    Float(u64),
}

impl Value {
    /// The value as an integer: an integer as it is, a float cut toward zero by `host`
    /// (`None` when the host does not answer with an integer).
    pub fn as_int<F: Fn(&FloatTask) -> Answer>(&self, host: &F) -> (r: Option<i32>)
        requires
            forall|t: &FloatTask| host.requires((t,)),
        ensures
            match *self {
                Value::Int(i) => r == Some(i),
                Value::Float(b) => exists|a: Answer|
                    #[trigger] call_ensures(*host, (&FloatTask::ToInt(b),), a)
                        && r == (match a { Answer::Int(i) => Some(i), _ => None::<i32> }),
            },
    {
        match *self {
            Value::Int(i) => Some(i),
            Value::Float(b) => {
                let task = FloatTask::ToInt(b);
                let a = host(&task);
                let r = match a {
                    Answer::Int(i) => Some(i),
                    _ => None,
                };
                assert(call_ensures(*host, (&FloatTask::ToInt(b),), a));
                r
            },
        }
    }

    /// The value as the bits of a double: a float as it is, an integer converted by
    /// `host` (`None` when the host does not answer with bits).
    pub fn as_float<F: Fn(&FloatTask) -> Answer>(&self, host: &F) -> (r: Option<u64>)
        requires
            forall|t: &FloatTask| host.requires((t,)),
        ensures
            match *self {
                Value::Float(b) => r == Some(b),
                Value::Int(i) => exists|a: Answer|
                    #[trigger] call_ensures(*host, (&FloatTask::FromInt(i),), a)
                        && r == (match a { Answer::Bits(b) => Some(b), _ => None::<u64> }),
            },
    {
        match *self {
            Value::Float(b) => Some(b),
            Value::Int(i) => {
                let task = FloatTask::FromInt(i);
                let a = host(&task);
                let r = match a {
                    Answer::Bits(b) => Some(b),
                    _ => None,
                };
                assert(call_ensures(*host, (&FloatTask::FromInt(i),), a));
                r
            },
        }
    }
}

#[derive(Debug, Clone, Copy, PartialEq, Eq, Structural)]
pub enum ArithKind {
    Add,
    Sub,
    Mul,
    Div,
}

#[derive(Debug, Clone, Copy, PartialEq, Eq, Structural)]
pub enum Relation {
    Eq,
    Ne,
    Lt,
    Gt,
    Le,
    Ge,
}

/// Floating-point work for the host.
#[derive(Debug)]
pub enum FloatTask {
    /// Read the text as a double; answer `Bits`, or `Invalid` when it is no number.
    Parse(String),
    /// Write the double as text, as `{}` does; answer `Text`.
    Show(u64),
    /// The integer as a double; answer `Bits`.
    FromInt(i32),
    /// The double cut to an integer, as `as i32` does; answer `Int`.
    ToInt(u64),
    /// The two doubles combined; answer `Bits`.
    Arith(ArithKind, u64, u64),
    /// The two doubles compared; answer `Truth`.
    Compare(Relation, u64, u64),
    /// The double negated; answer `Bits`.
    Negate(u64),
}

pub enum FloatTaskV {
    Parse(Seq<char>),
    Show(u64),
    FromInt(i32),
    ToInt(u64),
    Arith(ArithKind, u64, u64),
    Compare(Relation, u64, u64),
    Negate(u64),
}

impl View for FloatTask {
    type V = FloatTaskV;

    open spec fn view(&self) -> FloatTaskV {
        match self {
            FloatTask::Parse(s) => FloatTaskV::Parse(s@),
            FloatTask::Show(b) => FloatTaskV::Show(*b),
            FloatTask::FromInt(i) => FloatTaskV::FromInt(*i),
            FloatTask::ToInt(b) => FloatTaskV::ToInt(*b),
            FloatTask::Arith(k, a, b) => FloatTaskV::Arith(*k, *a, *b),
            FloatTask::Compare(k, a, b) => FloatTaskV::Compare(*k, *a, *b),
            FloatTask::Negate(b) => FloatTaskV::Negate(*b),
        }
    }
}

/// The host's answer to a task.
#[derive(Debug)]
pub enum Answer {
    Bits(u64),
    Int(i32),
    Truth(bool),
    Text(String),
    Invalid,
}

pub enum AnswerV {
    Bits(u64),
    Int(i32),
    Truth(bool),
    Text(Seq<char>),
    Invalid,
}

impl View for Answer {
    type V = AnswerV;

    open spec fn view(&self) -> AnswerV {
        match self {
            Answer::Bits(b) => AnswerV::Bits(*b),
            Answer::Int(i) => AnswerV::Int(*i),
            Answer::Truth(t) => AnswerV::Truth(*t),
            Answer::Text(s) => AnswerV::Text(s@),
            Answer::Invalid => AnswerV::Invalid,
        }
    }
}

pub open spec fn answers_view(v: Seq<Answer>) -> Seq<AnswerV> {
    v.map_values(|a: Answer| a@)
}

/// Why an instruction cannot run.
#[derive(Debug)]
pub enum Fault {
    /// The instruction lacks an operand.
    MissingOperand,
    /// An arithmetic instruction reads a register that holds nothing.
    EmptyRegister,
    /// Division by zero.
    DivisionByZero,
    /// An address or size does not fit, or a negation overflows.
    Overflow,
    /// A constant is no number.
    BadNumber,
    /// The instruction's name is not known.
    UnknownInstruction(String),
    /// The host answered a task with the wrong kind of answer.
    UnexpectedAnswer,
}

pub enum FaultV {
    MissingOperand,
    EmptyRegister,
    DivisionByZero,
    Overflow,
    BadNumber,
    UnknownInstruction(Seq<char>),
    UnexpectedAnswer,
}

impl View for Fault {
    type V = FaultV;

    open spec fn view(&self) -> FaultV {
        match self {
            Fault::MissingOperand => FaultV::MissingOperand,
            Fault::EmptyRegister => FaultV::EmptyRegister,
            Fault::DivisionByZero => FaultV::DivisionByZero,
            Fault::Overflow => FaultV::Overflow,
            Fault::BadNumber => FaultV::BadNumber,
            Fault::UnknownInstruction(s) => FaultV::UnknownInstruction(s@),
            Fault::UnexpectedAnswer => FaultV::UnexpectedAnswer,
        }
    }
}

/// What one step did.
#[derive(Debug)]
pub enum Step {
    /// There is no instruction left.
    Halted,
    /// The instruction ran; the text it printed, if any.
    Ran(Option<String>),
    /// The instruction waits for the host to answer the float task it holds.
    Need(FloatTask),
    /// The instruction cannot run.
    Fault(Fault),
}

// ---------------------------------------------------------------------------------
// The abstract machine
// ---------------------------------------------------------------------------------

/// The machine's state: registers and variables by name (in order of first use),
/// memory bytes, next instruction, program, output and next free address.
pub struct VmV {
    pub registers: Seq<(Seq<char>, Value)>,
    pub memory: Seq<u8>,
    pub memory_map: Seq<(Seq<char>, usize)>,
    pub pc: usize,
    pub program: Seq<Seq<char>>,
    pub output: Seq<Seq<char>>,
    pub next_addr: usize,
}

/// The outcome of running one instruction.
pub enum ExecV {
    Need(FloatTaskV),
    Fault(FaultV),
    Done(VmV, Option<Seq<char>>),
}

/// The value, or why there is none yet.
pub enum Got<T> {
    Val(T),
    Need(FloatTaskV),
    Bad,
}

// --- names ---

/// The index of the first entry named `name` at or after `i`, or `vs.len()`.
pub open spec fn index_from<V>(vs: Seq<(Seq<char>, V)>, name: Seq<char>, i: int) -> int
    decreases vs.len() - i,
{
    if i < 0 || i >= vs.len() {
        vs.len() as int
    } else if vs[i].0 == name {
        i
    } else {
        index_from(vs, name, i + 1)
    }
}

/// The value under `name`, if any.
pub open spec fn get<V>(vs: Seq<(Seq<char>, V)>, name: Seq<char>) -> Option<V> {
    let k = index_from(vs, name, 0);
    if 0 <= k < vs.len() { Some(vs[k].1) } else { None }
}

/// `vs` with `name` set to `v` (added at the end for a new name).
pub open spec fn put<V>(vs: Seq<(Seq<char>, V)>, name: Seq<char>, v: V) -> Seq<(Seq<char>, V)> {
    let k = index_from(vs, name, 0);
    if 0 <= k < vs.len() { vs.update(k, (name, v)) } else { vs.push((name, v)) }
}

// --- text ---

/// Rust's whitespace characters.
pub open spec fn is_space(c: char) -> bool {
    c == ' ' || c == '\t' || c == '\n' || c == '\r' || c == '\x0B' || c == '\x0C'
        || c == '\u{85}' || c == '\u{A0}' || c == '\u{1680}' || ('\u{2000}' <= c && c <= '\u{200A}')
        || c == '\u{2028}' || c == '\u{2029}' || c == '\u{202F}' || c == '\u{205F}' || c == '\u{3000}'
}

/// The whitespace-separated words of `s` from index `i`, with `cur` the word so far.
pub open spec fn words_from(s: Seq<char>, i: int, cur: Seq<char>) -> Seq<Seq<char>>
    decreases s.len() - i,
{
    if i < 0 || i >= s.len() {
        if cur.len() > 0 { seq![cur] } else { Seq::empty() }
    } else if is_space(s[i]) {
        (if cur.len() > 0 { seq![cur] } else { Seq::empty() }) + words_from(s, i + 1, Seq::empty())
    } else {
        words_from(s, i + 1, cur.push(s[i]))
    }
}

pub open spec fn words(s: Seq<char>) -> Seq<Seq<char>> {
    words_from(s, 0, Seq::empty())
}

pub open spec fn starts_with(s: Seq<char>, p: Seq<char>) -> bool {
    s.len() >= p.len() && s.subrange(0, p.len() as int) == p
}

pub open spec fn ends_with(s: Seq<char>, p: Seq<char>) -> bool {
    s.len() >= p.len() && s.subrange(s.len() - p.len(), s.len() as int) == p
}

/// The value of a string of decimal digits.
pub open spec fn digits_nat(s: Seq<char>) -> nat
    decreases s.len(),
{
    if s.len() == 0 { 0 } else { digits_nat(s.drop_last()) * 10 + char_digit(s.last()) }
}

pub open spec fn all_digits(s: Seq<char>) -> bool {
    s.len() > 0 && forall|i: int| 0 <= i < s.len() ==> is_digit(#[trigger] s[i])
}

/// An unsigned numeral, as `usize::from_str` reads it: an optional `+`, then digits.
pub open spec fn parse_usize(s: Seq<char>) -> Option<usize> {
    let d = if s.len() > 0 && s[0] == '+' { s.drop_first() } else { s };
    if all_digits(d) && digits_nat(d) <= usize::MAX { Some(digits_nat(d) as usize) } else { None }
}

/// A signed numeral, as `i32::from_str` reads it: an optional `+` or `-`, then digits.
pub open spec fn parse_i32(s: Seq<char>) -> Option<i32> {
    if s.len() > 0 && s[0] == '-' {
        let d = s.drop_first();
        if all_digits(d) && digits_nat(d) <= 0x8000_0000 { Some((-(digits_nat(d) as int)) as i32) } else { None }
    } else {
        let d = if s.len() > 0 && s[0] == '+' { s.drop_first() } else { s };
        if all_digits(d) && digits_nat(d) <= i32::MAX { Some(digits_nat(d) as i32) } else { None }
    }
}

// --- memory ---

/// The 32-bit integer stored little-endian at `addr` (four bytes).
pub open spec fn read_i32(mem: Seq<u8>, addr: int) -> i32 {
    let u = mem[addr] as int + mem[addr + 1] as int * 0x100 + mem[addr + 2] as int * 0x1_0000
        + mem[addr + 3] as int * 0x100_0000;
    if u >= 0x8000_0000 { (u - 0x1_0000_0000) as i32 } else { u as i32 }
}

/// `256^k`.
pub open spec fn pow256(k: nat) -> nat
    decreases k,
{
    if k == 0 { 1 } else { 256 * pow256((k - 1) as nat) }
}

/// Byte `k` (from the least significant) of `x`, taken modulo `2^64`.
pub open spec fn byte_of(x: int, k: nat) -> u8 {
    ((x % 0x1_0000_0000_0000_0000) / (pow256(k) as int) % 256) as u8
}

/// `mem` with `n` little-endian bytes of `x` written from `addr`.
pub open spec fn write_le(mem: Seq<u8>, addr: int, x: int, n: nat) -> Seq<u8> {
    Seq::new(mem.len(), |i: int| if addr <= i < addr + n { byte_of(x, (i - addr) as nat) } else { mem[i] })
}

/// `mem` with the bytes from `lo` up to (not including) `hi` set to zero.
pub open spec fn zero_range(mem: Seq<u8>, lo: int, hi: int) -> Seq<u8> {
    Seq::new(mem.len(), |i: int| if lo <= i < hi { 0u8 } else { mem[i] })
}

/// Writes `v` at `addr`: four bytes for an integer, eight for a float; nothing when it
/// does not fit in memory. `None` when the end address overflows.
pub open spec fn store_value(mem: Seq<u8>, addr: usize, v: Value) -> Option<Seq<u8>> {
    let (x, n) = match v {
        Value::Int(i) => (i as int, 4nat),
        Value::Float(b) => (b as int, 8nat),
    };
    if addr + n > usize::MAX {
        None
    } else if addr + n <= mem.len() {
        Some(write_le(mem, addr as int, x, n))
    } else {
        Some(mem)
    }
}

// --- answers ---

pub open spec fn ask_bits(ans: Seq<AnswerV>, k: int, t: FloatTaskV) -> Got<u64> {
    if k >= ans.len() { Got::Need(t) } else { match ans[k] { AnswerV::Bits(b) => Got::Val(b), _ => Got::Bad } }
}

pub open spec fn ask_int(ans: Seq<AnswerV>, k: int, t: FloatTaskV) -> Got<i32> {
    if k >= ans.len() { Got::Need(t) } else { match ans[k] { AnswerV::Int(i) => Got::Val(i), _ => Got::Bad } }
}

pub open spec fn ask_truth(ans: Seq<AnswerV>, k: int, t: FloatTaskV) -> Got<bool> {
    if k >= ans.len() { Got::Need(t) } else { match ans[k] { AnswerV::Truth(b) => Got::Val(b), _ => Got::Bad } }
}

pub open spec fn ask_text(ans: Seq<AnswerV>, k: int, t: FloatTaskV) -> Got<Seq<char>> {
    if k >= ans.len() { Got::Need(t) } else { match ans[k] { AnswerV::Text(s) => Got::Val(s), _ => Got::Bad } }
}

/// A value as a double: a float as it is, an integer converted by the host. Returns
/// the next answer's index too.
pub open spec fn as_float(v: Value, ans: Seq<AnswerV>, k: int) -> (Got<u64>, int) {
    match v {
        Value::Float(b) => (Got::Val(b), k),
        Value::Int(i) => (ask_bits(ans, k, FloatTaskV::FromInt(i)), k + 1),
    }
}

/// A value as an integer: an integer as it is, a float cut by the host.
pub open spec fn as_int(v: Value, ans: Seq<AnswerV>, k: int) -> (Got<i32>, int) {
    match v {
        Value::Int(i) => (Got::Val(i), k),
        Value::Float(b) => (ask_int(ans, k, FloatTaskV::ToInt(b)), k + 1),
    }
}

/// A value as printed: an integer in decimal, a float as the host writes it.
pub open spec fn as_text(v: Value, ans: Seq<AnswerV>, k: int) -> Got<Seq<char>> {
    match v {
        Value::Int(i) => Got::Val(int_text(i as int)),
        Value::Float(b) => ask_text(ans, k, FloatTaskV::Show(b)),
    }
}

/// The outcome when a value could not be had.
pub open spec fn stuck<T>(g: Got<T>) -> ExecV {
    match g {
        Got::Need(t) => ExecV::Need(t),
        _ => ExecV::Fault(FaultV::UnexpectedAnswer),
    }
}

pub open spec fn set_reg(st: VmV, name: Seq<char>, v: Value) -> ExecV {
    ExecV::Done(VmV { registers: put(st.registers, name, v), ..st }, None)
}

pub open spec fn unchanged(st: VmV) -> ExecV {
    ExecV::Done(st, None)
}

// --- integers ---

/// `x` wrapped to 32 bits, two's complement.
pub open spec fn wrap32(x: int) -> i32 {
    let m = x % 0x1_0000_0000;
    (if m >= 0x8000_0000 { m - 0x1_0000_0000 } else { m }) as i32
}

pub open spec fn abs(x: int) -> int {
    if x < 0 { -x } else { x }
}

/// Division rounding toward zero.
pub open spec fn trunc_div(a: int, b: int) -> int {
    if (a < 0) != (b < 0) { -(abs(a) / abs(b)) } else { abs(a) / abs(b) }
}

/// Integer arithmetic, wrapping on overflow.
pub open spec fn int_arith(kind: ArithKind, a: i32, b: i32) -> i32 {
    match kind {
        ArithKind::Add => wrap32(a + b),
        ArithKind::Sub => wrap32(a - b),
        ArithKind::Mul => wrap32(a * b),
        ArithKind::Div => wrap32(trunc_div(a as int, b as int)),
    }
}

proof fn lemma_wrap32(x: int)
    ensures
        (wrap32(x) as int - x) % 0x1_0000_0000 == 0,
        -0x8000_0000 <= x < 0x8000_0000 ==> wrap32(x) as int == x,
{
    let m = x % 0x1_0000_0000;
    assert(0 <= m < 0x1_0000_0000);
    assert((m - x) % 0x1_0000_0000 == 0) by {
        vstd::arithmetic::div_mod::lemma_fundamental_div_mod(x, 0x1_0000_0000);
        assert(m - x == -(0x1_0000_0000 * (x / 0x1_0000_0000)));
        vstd::arithmetic::div_mod::lemma_mod_multiples_basic(-(x / 0x1_0000_0000), 0x1_0000_0000);
        assert(-(0x1_0000_0000 * (x / 0x1_0000_0000)) == (-(x / 0x1_0000_0000)) * 0x1_0000_0000);
    }
    if m >= 0x8000_0000 {
        assert((m - 0x1_0000_0000 - x) % 0x1_0000_0000 == 0) by {
            vstd::arithmetic::div_mod::lemma_mod_sub_multiples_vanish(m - x, 0x1_0000_0000);
        }
    }
    if -0x8000_0000 <= x < 0x8000_0000 {
        if x >= 0 {
            vstd::arithmetic::div_mod::lemma_small_mod(x as nat, 0x1_0000_0000);
        } else {
            vstd::arithmetic::div_mod::lemma_mod_add_multiples_vanish(x, 0x1_0000_0000);
            vstd::arithmetic::div_mod::lemma_small_mod((x + 0x1_0000_0000) as nat, 0x1_0000_0000);
        }
    }
}

proof fn lemma_trunc_div(a: int, b: int)
    requires
        b != 0,
    ensures
        abs(a - trunc_div(a, b) * b) < abs(b),
        a - trunc_div(a, b) * b == 0 || ((a - trunc_div(a, b) * b) < 0) == (a < 0),
        abs(trunc_div(a, b)) <= abs(a),
{
    let q = abs(a) / abs(b);
    let r = abs(a) % abs(b);
    vstd::arithmetic::div_mod::lemma_fundamental_div_mod(abs(a), abs(b));
    assert(0 <= r < abs(b));
    assert(q * abs(b) + r == abs(a));
    assert(q <= abs(a)) by (nonlinear_arith)
        requires q * abs(b) + r == abs(a), abs(b) >= 1, r >= 0, q >= 0 || q < 0;
    assert(q >= 0) by (nonlinear_arith)
        requires q * abs(b) + r == abs(a), abs(b) >= 1, 0 <= r < abs(b), abs(a) >= 0;
    if (a < 0) != (b < 0) {
        assert(trunc_div(a, b) == -q);
        assert(a - (-q) * b == (if a < 0 { -r } else { r })) by (nonlinear_arith)
            requires q * abs(b) + r == abs(a), (a < 0) != (b < 0),
                abs(a) == (if a < 0 { -a } else { a }), abs(b) == (if b < 0 { -b } else { b });
    } else {
        assert(trunc_div(a, b) == q);
        assert(a - q * b == (if a < 0 { -r } else { r })) by (nonlinear_arith)
            requires q * abs(b) + r == abs(a), (a < 0) == (b < 0),
                abs(a) == (if a < 0 { -a } else { a }), abs(b) == (if b < 0 { -b } else { b });
    }
}

/// The machine's integer arithmetic is two's complement on 32 bits: `a + b`, `a - b`
/// (the first operand minus the second) and `a * b` are the exact results taken
/// modulo 2^32; `a / b` is the quotient rounded toward zero (the remainder is smaller
/// than the divisor and has the sign of the dividend), wrapping only for the one
/// quotient that does not fit, `i32::MIN / -1`.
pub proof fn law_int_arith_exact(a: i32, b: i32)
    ensures
        (int_arith(ArithKind::Add, a, b) - (a + b)) % 0x1_0000_0000 == 0,
        (int_arith(ArithKind::Sub, a, b) - (a - b)) % 0x1_0000_0000 == 0,
        (int_arith(ArithKind::Mul, a, b) - a * b) % 0x1_0000_0000 == 0,
        -0x8000_0000 <= a + b < 0x8000_0000 ==> int_arith(ArithKind::Add, a, b) as int == a + b,
        -0x8000_0000 <= a - b < 0x8000_0000 ==> int_arith(ArithKind::Sub, a, b) as int == a - b,
        b != 0 && !(a == i32::MIN && b == -1) ==> ({
            let q = int_arith(ArithKind::Div, a, b) as int;
            &&& abs(a - q * b) < abs(b as int)
            &&& (a - q * b == 0 || ((a - q * b) < 0) == (a < 0))
        }),
        a == i32::MIN && b == -1 ==> int_arith(ArithKind::Div, a, b) == i32::MIN,
{
    lemma_wrap32(a + b);
    lemma_wrap32(a - b);
    lemma_wrap32(a * b);
    if b != 0 {
        lemma_trunc_div(a as int, b as int);
        let q = trunc_div(a as int, b as int);
        if !(a == i32::MIN && b == -1) {
            if q >= 0x8000_0000 {
                assert(abs(q) <= abs(a as int));
                assert(a == i32::MIN);
                assert(abs(a - q * b) < abs(b as int));
                assert(q * b == a - (a - q * b));
                assert(b == -1 || b == 1 || abs(b as int) >= 2);
                assert(false) by (nonlinear_arith)
                    requires q >= 0x8000_0000, a == -0x8000_0000, abs(a - q * b) < abs(b as int),
                        b != -1, b != 0, -0x8000_0000 <= b < 0x8000_0000,
                        abs(a - q * b) == (if a - q * b < 0 { -(a - q * b) } else { a - q * b }),
                        abs(b as int) == (if b < 0 { -b } else { b as int }),
                        a - q * b == 0 || ((a - q * b) < 0) == (a < 0);
            }
            assert(-0x8000_0000 <= q < 0x8000_0000) by {
                assert(abs(q) <= abs(a as int));
            }
            lemma_wrap32(q);
        } else {
            assert(abs(a as int) == 0x8000_0000);
            assert(abs(b as int) == 1);
            assert(0x8000_0000int / 1 == 0x8000_0000);
            assert(q == 0x8000_0000);
            assert(wrap32(0x8000_0000) == i32::MIN) by {
                assert(0x8000_0000int % 0x1_0000_0000 == 0x8000_0000);
            }
        }
    }
}

pub open spec fn relation_holds(kind: Relation, a: int, b: int) -> bool {
    match kind {
        Relation::Eq => a == b,
        Relation::Ne => a != b,
        Relation::Lt => a < b,
        Relation::Gt => a > b,
        Relation::Le => a <= b,
        Relation::Ge => a >= b,
    }
}

/// A comparison's result: 1 when it holds, else 0.
pub open spec fn truth(b: bool) -> Value {
    Value::Int(if b { 1 } else { 0 })
}

// ---------------------------------------------------------------------------------
// Instructions
// ---------------------------------------------------------------------------------

/// `LD dst #n` (a constant: a float when it has a point), `LD dst @x` (four bytes
/// from a variable's address, or from a numeric address), `LD dst src` (four bytes from
/// the address in `src` when it holds a non-negative integer, else a copy of `src`).
/// A read past the end of memory leaves `dst` as it was.
pub open spec fn exec_ld(st: VmV, parts: Seq<Seq<char>>, ans: Seq<AnswerV>) -> ExecV {
    if parts.len() < 3 {
        ExecV::Fault(FaultV::MissingOperand)
    } else {
        let dst = parts[1];
        let src = parts[2];
        if starts_with(src, "#"@) {
            let text = src.drop_first();
            if text.contains('.') {
                if ans.len() == 0 {
                    ExecV::Need(FloatTaskV::Parse(text))
                } else {
                    match ans[0] {
                        AnswerV::Bits(b) => set_reg(st, dst, Value::Float(b)),
                        AnswerV::Invalid => ExecV::Fault(FaultV::BadNumber),
                        _ => ExecV::Fault(FaultV::UnexpectedAnswer),
                    }
                }
            } else {
                match parse_i32(text) {
                    Some(i) => set_reg(st, dst, Value::Int(i)),
                    None => ExecV::Fault(FaultV::BadNumber),
                }
            }
        } else if starts_with(src, "@"@) {
            let name = src.drop_first();
            let addr: int = match parse_usize(name) {
                Some(a) => a as int,
                None => match get(st.memory_map, name) {
                    Some(a) => a as int,
                    None => 0,
                },
            };
            if addr + 3 > usize::MAX {
                ExecV::Fault(FaultV::Overflow)
            } else if addr + 3 < st.memory.len() {
                set_reg(st, dst, Value::Int(read_i32(st.memory, addr)))
            } else {
                unchanged(st)
            }
        } else {
            match get(st.registers, src) {
                Some(Value::Int(a)) => if a >= 0 {
                    if a + 3 < st.memory.len() {
                        set_reg(st, dst, Value::Int(read_i32(st.memory, a as int)))
                    } else {
                        unchanged(st)
                    }
                } else {
                    set_reg(st, dst, Value::Int(a))
                },
                Some(v) => set_reg(st, dst, v),
                None => unchanged(st),
            }
        }
    }
}

/// Stores `v` (when there is one) at `addr`.
pub open spec fn store_at(st: VmV, addr: usize, v: Option<Value>) -> ExecV {
    match v {
        Some(x) => match store_value(st.memory, addr, x) {
            Some(m) => ExecV::Done(VmV { memory: m, ..st }, None),
            None => ExecV::Fault(FaultV::Overflow),
        },
        None => unchanged(st),
    }
}

/// `ST @print src` (prints the value and adds it to the output), `ST @x src` (stores
/// at the variable's address; a new variable gets the next free address, with room
/// for as many four-byte elements as `src` holds when it holds an integer, else four
/// bytes, cleared), `ST dst src` (stores at the address in `dst` when it holds an
/// integer).
pub open spec fn exec_st(st: VmV, parts: Seq<Seq<char>>, ans: Seq<AnswerV>) -> ExecV {
    if parts.len() < 3 {
        ExecV::Fault(FaultV::MissingOperand)
    } else {
        let dst = parts[1];
        let src = parts[2];
        let src_v = get(st.registers, src);
        if dst == "@print"@ {
            match src_v {
                Some(v) => match as_text(v, ans, 0) {
                    Got::Val(t) => ExecV::Done(VmV { output: st.output.push(t), ..st }, Some(t)),
                    g => stuck(g),
                },
                None => unchanged(st),
            }
        } else if starts_with(dst, "@"@) {
            let name = dst.drop_first();
            match parse_usize(name) {
                Some(a) => store_at(st, a, src_v),
                None => match get(st.memory_map, name) {
                    Some(a) => store_at(st, a, src_v),
                    None => {
                        let size: int = match src_v {
                            Some(Value::Int(n)) => (n as usize) as int * 4,
                            _ => 4,
                        };
                        if size > usize::MAX || st.next_addr + size > usize::MAX {
                            ExecV::Fault(FaultV::Overflow)
                        } else {
                            let a = st.next_addr;
                            let st2 = VmV {
                                next_addr: (a + size) as usize,
                                memory: zero_range(st.memory, a as int, a + size),
                                memory_map: put(st.memory_map, name, a),
                                ..st
                            };
                            store_at(st2, a, src_v)
                        }
                    },
                },
            }
        } else {
            match get(st.registers, dst) {
                Some(Value::Int(a)) => store_at(st, a as usize, src_v),
                _ => unchanged(st),
            }
        }
    }
}

/// Float arithmetic on two values (integers are converted first); division by a zero
/// divisor is a fault.
pub open spec fn arith_float(st: VmV, dst: Seq<char>, r1: Value, r2: Value, ans: Seq<AnswerV>, kind: ArithKind) -> ExecV {
    if kind == ArithKind::Div {
        let (gb, k1) = as_float(r2, ans, 0);
        match gb {
            Got::Val(b) => match ask_truth(ans, k1, FloatTaskV::Compare(Relation::Eq, b, 0)) {
                Got::Val(true) => ExecV::Fault(FaultV::DivisionByZero),
                Got::Val(false) => {
                    let (ga, k2) = as_float(r1, ans, k1 + 1);
                    match ga {
                        Got::Val(a) => match ask_bits(ans, k2, FloatTaskV::Arith(kind, a, b)) {
                            Got::Val(c) => set_reg(st, dst, Value::Float(c)),
                            g => stuck(g),
                        },
                        g => stuck(g),
                    }
                },
                g => stuck(g),
            },
            g => stuck(g),
        }
    } else {
        let (ga, k1) = as_float(r1, ans, 0);
        match ga {
            Got::Val(a) => {
                let (gb, k2) = as_float(r2, ans, k1);
                match gb {
                    Got::Val(b) => match ask_bits(ans, k2, FloatTaskV::Arith(kind, a, b)) {
                        Got::Val(c) => set_reg(st, dst, Value::Float(c)),
                        g => stuck(g),
                    },
                    g => stuck(g),
                }
            },
            g => stuck(g),
        }
    }
}

/// Integer arithmetic on two values (floats are cut to integers first); division by
/// zero is a fault.
pub open spec fn arith_int(st: VmV, dst: Seq<char>, r1: Value, r2: Value, ans: Seq<AnswerV>, kind: ArithKind) -> ExecV {
    if kind == ArithKind::Div {
        let (gb, k1) = as_int(r2, ans, 0);
        match gb {
            Got::Val(b) => if b == 0 {
                ExecV::Fault(FaultV::DivisionByZero)
            } else {
                let (ga, k2) = as_int(r1, ans, k1);
                match ga {
                    Got::Val(a) => set_reg(st, dst, Value::Int(int_arith(kind, a, b))),
                    g => stuck(g),
                }
            },
            g => stuck(g),
        }
    } else {
        let (ga, k1) = as_int(r1, ans, 0);
        match ga {
            Got::Val(a) => {
                let (gb, k2) = as_int(r2, ans, k1);
                match gb {
                    Got::Val(b) => set_reg(st, dst, Value::Int(int_arith(kind, a, b))),
                    g => stuck(g),
                }
            },
            g => stuck(g),
        }
    }
}

/// `ADD dst a b` and the like: float arithmetic for a name ending in `.f`, integer
/// arithmetic otherwise; both sources must hold values.
pub open spec fn exec_arith(st: VmV, parts: Seq<Seq<char>>, ans: Seq<AnswerV>, kind: ArithKind, float: bool) -> ExecV {
    if parts.len() < 4 {
        ExecV::Fault(FaultV::MissingOperand)
    } else {
        match (get(st.registers, parts[2]), get(st.registers, parts[3])) {
            (Some(r1), Some(r2)) => if float {
                arith_float(st, parts[1], r1, r2, ans, kind)
            } else {
                arith_int(st, parts[1], r1, r2, ans, kind)
            },
            _ => ExecV::Fault(FaultV::EmptyRegister),
        }
    }
}

/// `EQ.i dst a b` and the like (`float_only` for the `.f` forms): 1 or 0 in `dst`.
/// Two integers are compared (by the `.i` forms only), two floats by the host; other
/// pairs give 0. Nothing happens when a source is empty.
pub open spec fn exec_compare(st: VmV, parts: Seq<Seq<char>>, ans: Seq<AnswerV>, kind: Relation, float_only: bool) -> ExecV {
    if parts.len() < 4 {
        ExecV::Fault(FaultV::MissingOperand)
    } else {
        match (get(st.registers, parts[2]), get(st.registers, parts[3])) {
            (Some(Value::Int(a)), Some(Value::Int(b))) =>
                set_reg(st, parts[1], truth(!float_only && relation_holds(kind, a as int, b as int))),
            (Some(Value::Float(a)), Some(Value::Float(b))) =>
                match ask_truth(ans, 0, FloatTaskV::Compare(kind, a, b)) {
                    Got::Val(t) => set_reg(st, parts[1], truth(t)),
                    g => stuck(g),
                },
            (Some(_), Some(_)) => set_reg(st, parts[1], truth(false)),
            _ => unchanged(st),
        }
    }
}

/// `FL.i dst src`: the value of `src` as a float.
pub open spec fn exec_fl(st: VmV, parts: Seq<Seq<char>>, ans: Seq<AnswerV>) -> ExecV {
    if parts.len() < 3 {
        ExecV::Fault(FaultV::MissingOperand)
    } else {
        match get(st.registers, parts[2]) {
            Some(v) => match as_float(v, ans, 0).0 {
                Got::Val(b) => set_reg(st, parts[1], Value::Float(b)),
                g => stuck(g),
            },
            None => unchanged(st),
        }
    }
}

/// `NEG.i dst src`: minus the value of `src` as an integer (a float is cut first).
pub open spec fn exec_neg_int(st: VmV, parts: Seq<Seq<char>>, ans: Seq<AnswerV>) -> ExecV {
    if parts.len() < 3 {
        ExecV::Fault(FaultV::MissingOperand)
    } else {
        match get(st.registers, parts[2]) {
            Some(v) => match as_int(v, ans, 0).0 {
                Got::Val(i) => if i == i32::MIN {
                    ExecV::Fault(FaultV::Overflow)
                } else {
                    set_reg(st, parts[1], Value::Int((-i) as i32))
                },
                g => stuck(g),
            },
            None => unchanged(st),
        }
    }
}

/// `NEG.f dst src`: minus the value of `src` as a float.
pub open spec fn exec_neg_float(st: VmV, parts: Seq<Seq<char>>, ans: Seq<AnswerV>) -> ExecV {
    if parts.len() < 3 {
        ExecV::Fault(FaultV::MissingOperand)
    } else {
        match get(st.registers, parts[2]) {
            Some(v) => {
                let (ga, k1) = as_float(v, ans, 0);
                match ga {
                    Got::Val(a) => match ask_bits(ans, k1, FloatTaskV::Negate(a)) {
                        Got::Val(b) => set_reg(st, parts[1], Value::Float(b)),
                        g => stuck(g),
                    },
                    g => stuck(g),
                }
            },
            None => unchanged(st),
        }
    }
}

/// `print src`: prints the value (the output is not changed).
pub open spec fn exec_print(st: VmV, parts: Seq<Seq<char>>, ans: Seq<AnswerV>) -> ExecV {
    if parts.len() < 2 {
        ExecV::Fault(FaultV::MissingOperand)
    } else {
        match get(st.registers, parts[1]) {
            Some(v) => match as_text(v, ans, 0) {
                Got::Val(t) => ExecV::Done(st, Some(t)),
                g => stuck(g),
            },
            None => unchanged(st),
        }
    }
}

/// Runs one instruction, given the host's answers to the float tasks so far.
pub open spec fn execute(st: VmV, instr: Seq<char>, ans: Seq<AnswerV>) -> ExecV {
    let parts = words(instr);
    if parts.len() == 0 {
        ExecV::Fault(FaultV::MissingOperand)
    } else {
        let op = parts[0];
        if op == "LD"@ {
            exec_ld(st, parts, ans)
        } else if op == "ST"@ {
            exec_st(st, parts, ans)
        } else if starts_with(op, "ADD"@) {
            exec_arith(st, parts, ans, ArithKind::Add, ends_with(op, ".f"@))
        } else if starts_with(op, "SUB"@) {
            exec_arith(st, parts, ans, ArithKind::Sub, ends_with(op, ".f"@))
        } else if starts_with(op, "MUL"@) {
            exec_arith(st, parts, ans, ArithKind::Mul, ends_with(op, ".f"@))
        } else if starts_with(op, "DIV"@) {
            exec_arith(st, parts, ans, ArithKind::Div, ends_with(op, ".f"@))
        } else if op == "print"@ {
            exec_print(st, parts, ans)
        } else if op == "FL.i"@ {
            exec_fl(st, parts, ans)
        } else if op == "EQ.i"@ {
            exec_compare(st, parts, ans, Relation::Eq, false)
        } else if op == "NE.i"@ {
            exec_compare(st, parts, ans, Relation::Ne, false)
        } else if op == "LT.i"@ {
            exec_compare(st, parts, ans, Relation::Lt, false)
        } else if op == "GT.i"@ {
            exec_compare(st, parts, ans, Relation::Gt, false)
        } else if op == "LE.i"@ {
            exec_compare(st, parts, ans, Relation::Le, false)
        } else if op == "GE.i"@ {
            exec_compare(st, parts, ans, Relation::Ge, false)
        } else if op == "EQ.f"@ {
            exec_compare(st, parts, ans, Relation::Eq, true)
        } else if op == "NE.f"@ {
            exec_compare(st, parts, ans, Relation::Ne, true)
        } else if op == "LT.f"@ {
            exec_compare(st, parts, ans, Relation::Lt, true)
        } else if op == "GT.f"@ {
            exec_compare(st, parts, ans, Relation::Gt, true)
        } else if op == "LE.f"@ {
            exec_compare(st, parts, ans, Relation::Le, true)
        } else if op == "GE.f"@ {
            exec_compare(st, parts, ans, Relation::Ge, true)
        } else if op == "NEG.i"@ {
            exec_neg_int(st, parts, ans)
        } else if op == "NEG.f"@ {
            exec_neg_float(st, parts, ans)
        } else {
            ExecV::Fault(FaultV::UnknownInstruction(op))
        }
    }
}

/// What one step did, abstractly.
pub enum StepV {
    Halted,
    Ran(Option<Seq<char>>),
    Need(FloatTaskV),
    Fault(FaultV),
}

impl View for Step {
    type V = StepV;

    open spec fn view(&self) -> StepV {
        match self {
            Step::Halted => StepV::Halted,
            Step::Ran(t) => StepV::Ran(match t { Some(s) => Some(s@), None => None }),
            Step::Need(t) => StepV::Need(t@),
            Step::Fault(f) => StepV::Fault(f@),
        }
    }
}

/// One step: the instruction at `pc` runs and `pc` moves on; a step that needs a task
/// answered or faults changes nothing.
pub open spec fn step_spec(st: VmV, ans: Seq<AnswerV>) -> (StepV, VmV) {
    if st.pc >= st.program.len() {
        (StepV::Halted, st)
    } else {
        match execute(st, st.program[st.pc as int], ans) {
            ExecV::Need(t) => (StepV::Need(t), st),
            ExecV::Fault(f) => (StepV::Fault(f), st),
            ExecV::Done(st2, printed) => (StepV::Ran(printed), VmV { pc: (st.pc + 1) as usize, ..st2 }),
        }
    }
}

// ---------------------------------------------------------------------------------
// Text and numbers, executably
// ---------------------------------------------------------------------------------

pub open spec fn named_view<V>(v: Seq<(String, V)>) -> Seq<(Seq<char>, V)> {
    v.map_values(|p: (String, V)| (p.0@, p.1))
}

fn is_space_exec(c: char) -> (b: bool)
    ensures
        b == is_space(c),
{
    c == ' ' || c == '\t' || c == '\n' || c == '\r' || c == '\x0B' || c == '\x0C'
        || c == '\u{85}' || c == '\u{A0}' || c == '\u{1680}' || ('\u{2000}' <= c && c <= '\u{200A}')
        || c == '\u{2028}' || c == '\u{2029}' || c == '\u{202F}' || c == '\u{205F}' || c == '\u{3000}'
}

/// The whitespace-separated words of `s` (`split_whitespace`).
pub fn split_words(s: &String) -> (r: Vec<String>)
    ensures
        string_views(r@) == words(s@),
{
    let cs = chars_of(s.as_str());
    let mut out: Vec<String> = Vec::new();
    let mut cur: Vec<char> = Vec::new();
    assert(string_views(out@) =~= Seq::<Seq<char>>::empty());
    let mut i: usize = 0;
    while i < cs.len()
        invariant
            i <= cs.len(),
            cs@ == s@,
            words(s@) == string_views(out@) + words_from(s@, i as int, cur@),
        decreases cs.len() - i,
    {
        let ghost before = string_views(out@);
        let ghost c0 = cur@;
        if is_space_exec(cs[i]) {
            let ghost rest = words_from(s@, i + 1, Seq::empty());
            if cur.len() > 0 {
                out.push(string_of(&cur));
                assert(string_views(out@) == before.push(c0));
                assert(before + (seq![c0] + rest) == before.push(c0) + rest);
            } else {
                assert(before + (Seq::<Seq<char>>::empty() + rest) == before + rest);
            }
            cur = Vec::new();
            assert(cur@ =~= Seq::<char>::empty());
        } else {
            cur.push(cs[i]);
        }
        i = i + 1;
    }
    let ghost before = string_views(out@);
    let ghost c0 = cur@;
    if cur.len() > 0 {
        out.push(string_of(&cur));
        assert(string_views(out@) == before.push(c0));
        assert(before + seq![c0] == before.push(c0));
    } else {
        assert(before + Seq::<Seq<char>>::empty() == before);
    }
    out
}

fn same_text(s: &String, lit: &str) -> (b: bool)
    ensures
        b == (s@ == lit@),
{
    *s == owned(lit)
}

fn starts_with_text(s: &String, p: &str) -> (b: bool)
    ensures
        b == starts_with(s@, p@),
{
    let cs = chars_of(s.as_str());
    let ps = chars_of(p);
    if cs.len() < ps.len() {
        return false;
    }
    let mut i: usize = 0;
    while i < ps.len()
        invariant
            i <= ps.len() <= cs.len(),
            cs@ == s@,
            ps@ == p@,
            forall|j: int| 0 <= j < i ==> cs@[j] == ps@[j],
        decreases ps.len() - i,
    {
        if cs[i] != ps[i] {
            assert(s@.subrange(0, p@.len() as int)[i as int] != p@[i as int]);
            return false;
        }
        i = i + 1;
    }
    assert(s@.subrange(0, p@.len() as int) =~= p@);
    true
}

fn ends_with_text(s: &String, p: &str) -> (b: bool)
    ensures
        b == ends_with(s@, p@),
{
    let cs = chars_of(s.as_str());
    let ps = chars_of(p);
    if cs.len() < ps.len() {
        return false;
    }
    let off = cs.len() - ps.len();
    let mut i: usize = 0;
    while i < ps.len()
        invariant
            i <= ps.len() <= cs.len(),
            off == cs.len() - ps.len(),
            cs@ == s@,
            ps@ == p@,
            forall|j: int| 0 <= j < i ==> cs@[off + j] == ps@[j],
        decreases ps.len() - i,
    {
        if cs[off + i] != ps[i] {
            assert(s@.subrange(s@.len() - p@.len(), s@.len() as int)[i as int] != p@[i as int]);
            return false;
        }
        i = i + 1;
    }
    assert(s@.subrange(s@.len() - p@.len(), s@.len() as int) =~= p@);
    true
}

/// `s` without its first character.
fn after_first(s: &String) -> (r: String)
    requires
        s@.len() > 0,
    ensures
        r@ == s@.drop_first(),
{
    let cs = chars_of(s.as_str());
    let mut out: Vec<char> = Vec::new();
    let mut i: usize = 1;
    while i < cs.len()
        invariant
            1 <= i <= cs.len(),
            cs@ == s@,
            out@ == cs@.subrange(1, i as int),
        decreases cs.len() - i,
    {
        out.push(cs[i]);
        assert(cs@.subrange(1, i + 1) == cs@.subrange(1, i as int).push(cs@[i as int]));
        i = i + 1;
    }
    assert(out@ =~= s@.drop_first());
    string_of(&out)
}

fn has_char(s: &String, c: char) -> (b: bool)
    ensures
        b == s@.contains(c),
{
    let cs = chars_of(s.as_str());
    let mut i: usize = 0;
    while i < cs.len()
        invariant
            i <= cs.len(),
            cs@ == s@,
            forall|j: int| 0 <= j < i ==> cs@[j] != c,
        decreases cs.len() - i,
    {
        if cs[i] == c {
            assert(s@[i as int] == c);
            return true;
        }
        i = i + 1;
    }
    false
}

/// The value of the digits `cs[from..]`, or `None` when one is no digit, there are
/// none, or the value passes `limit`.
fn digits_value_upto(cs: &Vec<char>, from: usize, limit: u64) -> (r: Option<u64>)
    requires
        from <= cs.len(),
        limit >= 9,
    ensures
        match r {
            Some(v) => all_digits(cs@.skip(from as int)) && digits_nat(cs@.skip(from as int)) == v && v <= limit,
            None => !(all_digits(cs@.skip(from as int)) && digits_nat(cs@.skip(from as int)) <= limit),
        },
{
    let ghost d = cs@.skip(from as int);
    if from == cs.len() {
        return None;
    }
    let mut v: u64 = 0;
    let mut i: usize = from;
    while i < cs.len()
        invariant
            from <= i <= cs.len(),
            d == cs@.skip(from as int),
            forall|j: int| 0 <= j < i - from ==> is_digit(#[trigger] d[j]),
            v == digits_nat(d.take(i - from)),
            v <= limit,
            limit >= 9,
        decreases cs.len() - i,
    {
        let c = cs[i];
        assert(d[i - from] == c);
        if !('0' <= c && c <= '9') {
            return None;
        }
        let dv: u64 = (c as u32 - '0' as u32) as u64;
        assert(d.take(i - from + 1).drop_last() == d.take(i - from));
        assert(d.take(i - from + 1).last() == c);
        if v > (limit - dv) / 10 {
            proof {
                assert(digits_nat(d.take(i - from + 1)) == v * 10 + dv);
                if all_digits(d) {
                    lemma_digits_grow(d, (i - from + 1) as int, d.len() as int);
                }
                assert(v * 10 + dv > limit) by (nonlinear_arith)
                    requires v > (limit - dv) / 10, dv <= 9, dv <= limit;
                assert(d.take(d.len() as int) == d);
            }
            return None;
        }
        proof {
            assert(v * 10 + dv <= limit) by (nonlinear_arith)
                requires v <= (limit - dv) / 10, dv <= limit;
        }
        v = v * 10 + dv;
        i = i + 1;
        assert(forall|j: int| 0 <= j < i - from ==> is_digit(#[trigger] d[j]));
    }
    assert(d.take(d.len() as int) == d);
    Some(v)
}

proof fn lemma_digits_grow(d: Seq<char>, a: int, b: int)
    requires
        0 <= a <= b <= d.len(),
        forall|j: int| 0 <= j < b ==> is_digit(#[trigger] d[j]),
    ensures
        digits_nat(d.take(a)) <= digits_nat(d.take(b)),
    decreases b - a,
{
    if a < b {
        lemma_digits_grow(d, a, b - 1);
        assert(d.take(b).drop_last() == d.take(b - 1));
    }
}

fn parse_usize_exec(s: &String) -> (r: Option<usize>)
    ensures
        r == parse_usize(s@),
{
    let cs = chars_of(s.as_str());
    let from: usize = if cs.len() > 0 && cs[0] == '+' { 1 } else { 0 };
    assert(cs@.skip(from as int) == (if s@.len() > 0 && s@[0] == '+' { s@.drop_first() } else { s@ }));
    match digits_value_upto(&cs, from, usize::MAX as u64) {
        Some(v) => Some(v as usize),
        None => None,
    }
}

pub(crate) fn parse_i32_exec(s: &String) -> (r: Option<i32>)
    ensures
        r == parse_i32(s@),
{
    let cs = chars_of(s.as_str());
    if cs.len() > 0 && cs[0] == '-' {
        assert(cs@.skip(1) == s@.drop_first());
        match digits_value_upto(&cs, 1, 0x8000_0000) {
            Some(v) => Some((0i64 - v as i64) as i32),
            None => None,
        }
    } else {
        let from: usize = if cs.len() > 0 && cs[0] == '+' { 1 } else { 0 };
        assert(cs@.skip(from as int) == (if s@.len() > 0 && s@[0] == '+' { s@.drop_first() } else { s@ }));
        match digits_value_upto(&cs, from, i32::MAX as u64) {
            Some(v) => Some(v as i32),
            None => None,
        }
    }
}

/// The index of the entry named `name`, or the length when there is none.
fn find_name<V>(vs: &Vec<(String, V)>, name: &String) -> (k: usize)
    ensures
        k as int == index_from(named_view(vs@), name@, 0),
        k <= vs.len(),
{
    let ghost nv = named_view(vs@);
    let mut k: usize = 0;
    while k < vs.len()
        invariant
            k <= vs.len(),
            nv == named_view(vs@),
            index_from(nv, name@, 0) == index_from(nv, name@, k as int),
        decreases vs.len() - k,
    {
        if vs[k].0 == *name {
            return k;
        }
        k = k + 1;
    }
    k
}

fn lookup_value(vs: &Vec<(String, Value)>, name: &String) -> (r: Option<Value>)
    ensures
        r == get(named_view(vs@), name@),
{
    let k = find_name(vs, name);
    if k < vs.len() { Some(vs[k].1) } else { None }
}

fn lookup_address(vs: &Vec<(String, usize)>, name: &String) -> (r: Option<usize>)
    ensures
        r == get(named_view(vs@), name@),
{
    let k = find_name(vs, name);
    if k < vs.len() { Some(vs[k].1) } else { None }
}

fn put_exec<V>(vs: &mut Vec<(String, V)>, name: String, v: V)
    ensures
        named_view(final(vs)@) == put(named_view(old(vs)@), name@, v),
{
    let k = find_name(vs, &name);
    let ghost nv = name@;
    let ghost vv = v;
    if k < vs.len() {
        vs.set(k, (name, v));
        assert(named_view(vs@) =~= named_view(old(vs)@).update(k as int, (nv, vv)));
    } else {
        vs.push((name, v));
        assert(named_view(vs@) =~= named_view(old(vs)@).push((nv, vv)));
    }
}

// ---------------------------------------------------------------------------------
// Memory, executably
// ---------------------------------------------------------------------------------

pub(crate) fn read_i32_exec(mem: &Vec<u8>, addr: usize) -> (v: i32)
    requires
        addr + 3 < mem.len(),
    ensures
        v == read_i32(mem@, addr as int),
{
    let u: u64 = mem[addr] as u64 + mem[addr + 1] as u64 * 0x100 + mem[addr + 2] as u64 * 0x1_0000
        + mem[addr + 3] as u64 * 0x100_0000;
    if u >= 0x8000_0000 { (u as i64 - 0x1_0000_0000) as i32 } else { u as i32 }
}

/// The 64-bit two's complement pattern of `i`.
fn int_pattern(i: i32) -> (u: u64)
    ensures
        u as int == (i as int) % 0x1_0000_0000_0000_0000,
{
    if i >= 0 { i as u64 } else { (i as i128 + 0x1_0000_0000_0000_0000i128) as u64 }
}

fn pow256_exec(k: usize) -> (d: u64)
    requires
        k < 8,
    ensures
        d == pow256(k as nat),
{
    proof { reveal_with_fuel(pow256, 8); }
    if k == 0 { 1 } else if k == 1 { 0x100 } else if k == 2 { 0x1_0000 } else if k == 3 { 0x100_0000 }
    else if k == 4 { 0x1_0000_0000 } else if k == 5 { 0x100_0000_0000 } else if k == 6 { 0x1_0000_0000_0000 }
    else { 0x100_0000_0000_0000 }
}

fn write_le_exec(mem: &mut Vec<u8>, addr: usize, x: u64, n: usize)
    requires
        addr + n <= old(mem).len(),
        n <= 8,
    ensures
        final(mem)@ == write_le(old(mem)@, addr as int, x as int, n as nat),
{
    let mut k: usize = 0;
    while k < n
        invariant
            k <= n <= 8,
            addr + n <= mem.len(),
            mem.len() == old(mem).len(),
            mem@ == Seq::new(old(mem)@.len(), |i: int|
                if addr <= i < addr + k { byte_of(x as int, (i - addr) as nat) } else { old(mem)@[i] }),
        decreases n - k,
    {
        let d = pow256_exec(k);
        proof { reveal_with_fuel(pow256, 8); }
        let b: u8 = ((x / d) % 256) as u8;
        assert((x as int) % 0x1_0000_0000_0000_0000 == x as int);
        assert(b == byte_of(x as int, k as nat));
        mem.set(addr + k, b);
        assert(mem@ =~= Seq::new(old(mem)@.len(), |i: int|
            if addr <= i < addr + k + 1 { byte_of(x as int, (i - addr) as nat) } else { old(mem)@[i] }));
        k = k + 1;
    }
    assert(mem@ =~= write_le(old(mem)@, addr as int, x as int, n as nat));
}

fn zero_range_exec(mem: &mut Vec<u8>, lo: usize, hi: usize)
    ensures
        final(mem)@ == zero_range(old(mem)@, lo as int, hi as int),
{
    let mut i = lo;
    while i < hi && i < mem.len()
        invariant
            lo <= i,
            i <= hi || i == lo,
            mem.len() == old(mem).len(),
            mem@ == Seq::new(old(mem)@.len(), |j: int| if lo <= j < i { 0u8 } else { old(mem)@[j] }),
        decreases hi - i,
    {
        mem.set(i, 0);
        assert(mem@ =~= Seq::new(old(mem)@.len(), |j: int| if lo <= j < i + 1 { 0u8 } else { old(mem)@[j] }));
        i = i + 1;
    }
    assert(i >= hi || i >= mem.len());
    assert(mem@ =~= zero_range(old(mem)@, lo as int, hi as int));
}

// ---------------------------------------------------------------------------------
// The machine
// ---------------------------------------------------------------------------------

/// The register machine.
pub struct VM {
    registers: Vec<(String, Value)>,
    memory: Vec<u8>,
    memory_map: Vec<(String, usize)>,
    pc: usize,
    program: Vec<String>,
    output: Vec<String>,
    next_addr: usize,
}

/// An instruction's outcome; on `Done` the machine has been updated.
enum Exec {
    Need(FloatTask),
    Fault(Fault),
    Done(Option<String>),
}

pub open spec fn text_option(t: Option<String>) -> Option<Seq<char>> {
    match t {
        Some(s) => Some(s@),
        None => None,
    }
}

/// `r`, run from `before` to `after`, is the outcome `e`.
spec fn exec_is(r: Exec, before: VmV, after: VmV, e: ExecV) -> bool {
    match r {
        Exec::Done(p) => e == ExecV::Done(after, text_option(p)),
        Exec::Need(t) => e == ExecV::Need(t@) && after == before,
        Exec::Fault(f) => e == ExecV::Fault(f@) && after == before,
    }
}

/// Why a value could not be had.
enum Stuck {
    Need(FloatTask),
    Bad,
}

spec fn got_is<T>(g: Got<T>, r: Result<T, Stuck>) -> bool {
    match g {
        Got::Val(v) => r matches Ok(w) && w == v,
        Got::Need(t) => r matches Err(Stuck::Need(x)) && x@ == t,
        Got::Bad => r matches Err(Stuck::Bad),
    }
}

spec fn got_text_is(g: Got<Seq<char>>, r: Result<String, Stuck>) -> bool {
    match g {
        Got::Val(v) => r matches Ok(w) && w@ == v,
        Got::Need(t) => r matches Err(Stuck::Need(x)) && x@ == t,
        Got::Bad => r matches Err(Stuck::Bad),
    }
}

fn stuck_exec(s: Stuck) -> (r: Exec)
    ensures
        match s {
            Stuck::Need(t) => r matches Exec::Need(x) && x@ == t@,
            Stuck::Bad => r matches Exec::Fault(Fault::UnexpectedAnswer),
        },
{
    match s {
        Stuck::Need(t) => Exec::Need(t),
        Stuck::Bad => Exec::Fault(Fault::UnexpectedAnswer),
    }
}

fn ask_bits_exec(ans: &Vec<Answer>, k: usize, t: FloatTask) -> (r: Result<u64, Stuck>)
    ensures
        got_is(ask_bits(answers_view(ans@), k as int, t@), r),
{
    if k >= ans.len() {
        Err(Stuck::Need(t))
    } else {
        assert(answers_view(ans@)[k as int] == ans@[k as int]@);
        match &ans[k] {
            Answer::Bits(b) => Ok(*b),
            _ => Err(Stuck::Bad),
        }
    }
}

fn ask_int_exec(ans: &Vec<Answer>, k: usize, t: FloatTask) -> (r: Result<i32, Stuck>)
    ensures
        got_is(ask_int(answers_view(ans@), k as int, t@), r),
{
    if k >= ans.len() {
        Err(Stuck::Need(t))
    } else {
        assert(answers_view(ans@)[k as int] == ans@[k as int]@);
        match &ans[k] {
            Answer::Int(i) => Ok(*i),
            _ => Err(Stuck::Bad),
        }
    }
}

fn ask_truth_exec(ans: &Vec<Answer>, k: usize, t: FloatTask) -> (r: Result<bool, Stuck>)
    ensures
        got_is(ask_truth(answers_view(ans@), k as int, t@), r),
{
    if k >= ans.len() {
        Err(Stuck::Need(t))
    } else {
        assert(answers_view(ans@)[k as int] == ans@[k as int]@);
        match &ans[k] {
            Answer::Truth(b) => Ok(*b),
            _ => Err(Stuck::Bad),
        }
    }
}

fn as_float_exec(v: Value, ans: &Vec<Answer>, k: usize) -> (r: (Result<u64, Stuck>, usize))
    requires
        k < usize::MAX,
    ensures
        got_is(as_float(v, answers_view(ans@), k as int).0, r.0),
        r.1 as int == as_float(v, answers_view(ans@), k as int).1,
{
    match v {
        Value::Float(b) => (Ok(b), k),
        Value::Int(i) => (ask_bits_exec(ans, k, FloatTask::FromInt(i)), k + 1),
    }
}

fn as_int_exec(v: Value, ans: &Vec<Answer>, k: usize) -> (r: (Result<i32, Stuck>, usize))
    requires
        k < usize::MAX,
    ensures
        got_is(as_int(v, answers_view(ans@), k as int).0, r.0),
        r.1 as int == as_int(v, answers_view(ans@), k as int).1,
{
    match v {
        Value::Int(i) => (Ok(i), k),
        Value::Float(b) => (ask_int_exec(ans, k, FloatTask::ToInt(b)), k + 1),
    }
}

fn as_text_exec(v: Value, ans: &Vec<Answer>, k: usize) -> (r: Result<String, Stuck>)
    ensures
        got_text_is(as_text(v, answers_view(ans@), k as int), r),
{
    match v {
        Value::Int(i) => {
            let mut t: Vec<char> = Vec::new();
            push_int(&mut t, i as i64);
            assert(t@ =~= int_text(i as int));
            Ok(string_of(&t))
        },
        Value::Float(b) => {
            if k >= ans.len() {
                Err(Stuck::Need(FloatTask::Show(b)))
            } else {
                assert(answers_view(ans@)[k as int] == ans@[k as int]@);
                match &ans[k] {
                    Answer::Text(t) => Ok(t.clone()),
                    _ => Err(Stuck::Bad),
                }
            }
        },
    }
}

/// Two's complement integer arithmetic, wrapping on overflow.
fn int_arith_exec(kind: ArithKind, a: i32, b: i32) -> (r: i32)
    requires
        kind == ArithKind::Div ==> b != 0,
    ensures
        r == int_arith(kind, a, b),
{
    let x: i64 = match kind {
        ArithKind::Add => a as i64 + b as i64,
        ArithKind::Sub => a as i64 - b as i64,
        ArithKind::Mul => {
            proof {
                assert(-0x4000_0000_0000_0000 <= (a as int) * (b as int) <= 0x4000_0000_0000_0000) by (nonlinear_arith)
                    requires -0x8000_0000 <= a < 0x8000_0000, -0x8000_0000 <= b < 0x8000_0000;
            }
            a as i64 * b as i64
        },
        ArithKind::Div => {
            let ua: u64 = if a < 0 { (0i64 - a as i64) as u64 } else { a as u64 };
            let ub: u64 = if b < 0 { (0i64 - b as i64) as u64 } else { b as u64 };
            let q: u64 = ua / ub;
            assert(q <= ua) by (nonlinear_arith) requires q == ua / ub, ub >= 1;
            if (a < 0) != (b < 0) { 0i64 - q as i64 } else { q as i64 }
        },
    };
    assert(-0x4000_0000_0000_0000 <= x <= 0x4000_0000_0000_0000);
    let m: u64 = if x >= 0 {
        (x as u64) % 0x1_0000_0000
    } else {
        let r = ((0i64 - x) as u64) % 0x1_0000_0000;
        if r == 0 { 0 } else { 0x1_0000_0000 - r }
    };
    assert(m as int == (x as int) % 0x1_0000_0000);
    if m >= 0x8000_0000 { (m as i64 - 0x1_0000_0000) as i32 } else { m as i32 }
}

impl VM {
    /// The machine's state.
    pub closed spec fn state(&self) -> VmV {
        VmV {
            registers: named_view(self.registers@),
            memory: self.memory@,
            memory_map: named_view(self.memory_map@),
            pc: self.pc,
            program: string_views(self.program@),
            output: string_views(self.output@),
            next_addr: self.next_addr,
        }
    }

    /// A machine with `memory_size` bytes of cleared memory and no program.
    pub fn new(memory_size: usize) -> (vm: VM)
        ensures
            vm.state() == (VmV {
                registers: Seq::empty(),
                memory: Seq::new(memory_size as nat, |i: int| 0u8),
                memory_map: Seq::empty(),
                pc: 0,
                program: Seq::empty(),
                output: Seq::empty(),
                next_addr: 0,
            }),
    {
        let mut memory: Vec<u8> = Vec::new();
        let mut i: usize = 0;
        while i < memory_size
            invariant
                i <= memory_size,
                memory@ == Seq::new(i as nat, |j: int| 0u8),
            decreases memory_size - i,
        {
            memory.push(0);
            assert(memory@ =~= Seq::new((i + 1) as nat, |j: int| 0u8));
            i = i + 1;
        }
        let vm = VM {
            registers: Vec::new(),
            memory,
            memory_map: Vec::new(),
            pc: 0,
            program: Vec::new(),
            output: Vec::new(),
            next_addr: 0,
        };
        assert(named_view(vm.registers@) =~= Seq::<(Seq<char>, Value)>::empty());
        assert(named_view(vm.memory_map@) =~= Seq::<(Seq<char>, usize)>::empty());
        assert(string_views(vm.program@) =~= Seq::<Seq<char>>::empty());
        assert(string_views(vm.output@) =~= Seq::<Seq<char>>::empty());
        vm
    }

    /// Replaces the program (the rest of the state stays).
    pub fn load_program(&mut self, program: Vec<String>)
        ensures
            final(self).state() == (VmV { program: string_views(program@), ..old(self).state() }),
    {
        self.program = program;
    }

    /// The registers, the memory and the next instruction's index.
    pub fn get_state(&self) -> (r: (&Vec<(String, Value)>, &Vec<u8>, usize))
        ensures
            named_view(r.0@) == self.state().registers,
            r.1@ == self.state().memory,
            r.2 == self.state().pc,
    {
        (&self.registers, &self.memory, self.pc)
    }

    /// A copy of the program.
    pub fn get_program(&self) -> (r: Vec<String>)
        ensures
            string_views(r@) == self.state().program,
    {
        let mut r: Vec<String> = Vec::new();
        for i in 0..self.program.len()
            invariant
                string_views(r@) == string_views(self.program@).take(i as int),
        {
            let c = self.program[i].clone();
            assert(c@ == self.program@[i as int]@);
            let ghost before = r@;
            r.push(c);
            assert(string_views(r@) =~= string_views(before).push(c@));
            assert(string_views(r@) =~= string_views(self.program@).take(i + 1));
        }
        assert(string_views(self.program@).take(self.program.len() as int) == string_views(self.program@));
        r
    }

    /// The values printed by `ST @print` so far.
    pub fn get_output(&self) -> (r: &Vec<String>)
        ensures
            string_views(r@) == self.state().output,
    {
        &self.output
    }

    /// Forgets the output.
    pub fn clear_output(&mut self)
        ensures
            final(self).state() == (VmV { output: Seq::empty(), ..old(self).state() }),
    {
        self.output = Vec::new();
        assert(string_views(self.output@) =~= Seq::<Seq<char>>::empty());
    }

    fn set_register(&mut self, name: &String, v: Value)
        ensures
            final(self).state() == (VmV { registers: put(old(self).state().registers, name@, v), ..old(self).state() }),
    {
        put_exec(&mut self.registers, name.clone(), v);
    }

    fn done_set(&mut self, name: &String, v: Value) -> (r: Exec)
        ensures
            exec_is(r, old(self).state(), final(self).state(), set_reg(old(self).state(), name@, v)),
    {
        self.set_register(name, v);
        Exec::Done(None)
    }

    fn store_at_exec(&mut self, addr: usize, v: Option<Value>) -> (r: Exec)
        ensures
            exec_is(r, old(self).state(), final(self).state(), store_at(old(self).state(), addr, v)),
    {
        match v {
            Some(x) => {
                let (bits, n): (u64, usize) = match x {
                    Value::Int(i) => (int_pattern(i), 4),
                    Value::Float(b) => (b, 8),
                };
                if addr > usize::MAX - n {
                    Exec::Fault(Fault::Overflow)
                } else if addr + n <= self.memory.len() {
                    proof {
                        let xi: int = match x { Value::Int(i) => i as int, Value::Float(b) => b as int };
                        assert forall|k: nat| #[trigger] byte_of(xi, k) == byte_of(bits as int, k) by {
                            assert((bits as int) % 0x1_0000_0000_0000_0000 == xi % 0x1_0000_0000_0000_0000);
                        }
                        assert(write_le(self.memory@, addr as int, xi, n as nat)
                            =~= write_le(self.memory@, addr as int, bits as int, n as nat));
                    }
                    write_le_exec(&mut self.memory, addr, bits, n);
                    Exec::Done(None)
                } else {
                    Exec::Done(None)
                }
            },
            None => Exec::Done(None),
        }
    }
}

// ---------------------------------------------------------------------------------
// Instructions, executably
// ---------------------------------------------------------------------------------

fn relation_holds_exec(kind: Relation, a: i32, b: i32) -> (r: bool)
    ensures
        r == relation_holds(kind, a as int, b as int),
{
    match kind {
        Relation::Eq => a == b,
        Relation::Ne => a != b,
        Relation::Lt => a < b,
        Relation::Gt => a > b,
        Relation::Le => a <= b,
        Relation::Ge => a >= b,
    }
}

fn truth_exec(b: bool) -> (v: Value)
    ensures
        v == truth(b),
{
    Value::Int(if b { 1 } else { 0 })
}

impl VM {
    fn exec_ld_exec(&mut self, parts: &Vec<String>, ans: &Vec<Answer>) -> (r: Exec)
        ensures
            exec_is(r, old(self).state(), final(self).state(),
                exec_ld(old(self).state(), string_views(parts@), answers_view(ans@))),
    {
        let ghost pv = string_views(parts@);
        if parts.len() < 3 {
            return Exec::Fault(Fault::MissingOperand);
        }
        assert(pv[1] == parts@[1]@ && pv[2] == parts@[2]@);
        let dst = &parts[1];
        let src = &parts[2];
        proof {
            reveal_strlit("#");
            reveal_strlit("@");
        }
        if starts_with_text(src, "#") {
            let text = after_first(src);
            if has_char(&text, '.') {
                if ans.len() == 0 {
                    Exec::Need(FloatTask::Parse(text))
                } else {
                    assert(answers_view(ans@)[0] == ans@[0]@);
                    match &ans[0] {
                        Answer::Bits(b) => self.done_set(dst, Value::Float(*b)),
                        Answer::Invalid => Exec::Fault(Fault::BadNumber),
                        _ => Exec::Fault(Fault::UnexpectedAnswer),
                    }
                }
            } else {
                match parse_i32_exec(&text) {
                    Some(i) => self.done_set(dst, Value::Int(i)),
                    None => Exec::Fault(Fault::BadNumber),
                }
            }
        } else if starts_with_text(src, "@") {
            let name = after_first(src);
            let addr: usize = match parse_usize_exec(&name) {
                Some(a) => a,
                None => match lookup_address(&self.memory_map, &name) {
                    Some(a) => a,
                    None => 0,
                },
            };
            if addr > usize::MAX - 3 {
                Exec::Fault(Fault::Overflow)
            } else if addr + 3 < self.memory.len() {
                let v = read_i32_exec(&self.memory, addr);
                self.done_set(dst, Value::Int(v))
            } else {
                Exec::Done(None)
            }
        } else {
            match lookup_value(&self.registers, src) {
                Some(Value::Int(a)) => {
                    if a >= 0 {
                        let au = a as usize;
                        if au + 3 < self.memory.len() {
                            let v = read_i32_exec(&self.memory, au);
                            self.done_set(dst, Value::Int(v))
                        } else {
                            Exec::Done(None)
                        }
                    } else {
                        self.done_set(dst, Value::Int(a))
                    }
                },
                Some(v) => self.done_set(dst, v),
                None => Exec::Done(None),
            }
        }
    }

    fn exec_st_exec(&mut self, parts: &Vec<String>, ans: &Vec<Answer>) -> (r: Exec)
        ensures
            exec_is(r, old(self).state(), final(self).state(),
                exec_st(old(self).state(), string_views(parts@), answers_view(ans@))),
    {
        let ghost pv = string_views(parts@);
        if parts.len() < 3 {
            return Exec::Fault(Fault::MissingOperand);
        }
        assert(pv[1] == parts@[1]@ && pv[2] == parts@[2]@);
        let dst = &parts[1];
        let src = &parts[2];
        let src_v = lookup_value(&self.registers, src);
        proof {
            reveal_strlit("@");
        }
        if same_text(dst, "@print") {
            match src_v {
                Some(v) => match as_text_exec(v, ans, 0) {
                    Ok(t) => {
                        let ghost before = self.output@;
                        self.output.push(t.clone());
                        assert(string_views(self.output@) =~= string_views(before).push(t@));
                        Exec::Done(Some(t))
                    },
                    Err(s) => stuck_exec(s),
                },
                None => Exec::Done(None),
            }
        } else if starts_with_text(dst, "@") {
            let name = after_first(dst);
            match parse_usize_exec(&name) {
                Some(a) => self.store_at_exec(a, src_v),
                None => match lookup_address(&self.memory_map, &name) {
                    Some(a) => self.store_at_exec(a, src_v),
                    None => {
                        let size: usize = match src_v {
                            Some(Value::Int(n)) => {
                                let nu: usize = n as usize;
                                if nu > usize::MAX / 4 {
                                    return Exec::Fault(Fault::Overflow);
                                }
                                nu * 4
                            },
                            _ => 4,
                        };
                        if self.next_addr > usize::MAX - size {
                            return Exec::Fault(Fault::Overflow);
                        }
                        let a = self.next_addr;
                        let width: usize = match src_v {
                            Some(Value::Float(_)) => 8,
                            _ => 4,
                        };
                        if src_v.is_some() && a > usize::MAX - width {
                            return Exec::Fault(Fault::Overflow);
                        }
                        self.next_addr = a + size;
                        zero_range_exec(&mut self.memory, a, a + size);
                        put_exec(&mut self.memory_map, name, a);
                        self.store_at_exec(a, src_v)
                    },
                },
            }
        } else {
            match lookup_value(&self.registers, dst) {
                Some(Value::Int(a)) => self.store_at_exec(a as usize, src_v),
                _ => Exec::Done(None),
            }
        }
    }

    fn arith_float_exec(&mut self, dst: &String, r1: Value, r2: Value, ans: &Vec<Answer>, kind: ArithKind) -> (r: Exec)
        ensures
            exec_is(r, old(self).state(), final(self).state(),
                arith_float(old(self).state(), dst@, r1, r2, answers_view(ans@), kind)),
    {
        if kind == ArithKind::Div {
            let (gb, k1) = as_float_exec(r2, ans, 0);
            let b = match gb {
                Ok(b) => b,
                Err(s) => return stuck_exec(s),
            };
            match ask_truth_exec(ans, k1, FloatTask::Compare(Relation::Eq, b, 0)) {
                Ok(true) => Exec::Fault(Fault::DivisionByZero),
                Ok(false) => {
                    let (ga, k2) = as_float_exec(r1, ans, k1 + 1);
                    let a = match ga {
                        Ok(a) => a,
                        Err(s) => return stuck_exec(s),
                    };
                    match ask_bits_exec(ans, k2, FloatTask::Arith(kind, a, b)) {
                        Ok(c) => self.done_set(dst, Value::Float(c)),
                        Err(s) => stuck_exec(s),
                    }
                },
                Err(s) => stuck_exec(s),
            }
        } else {
            let (ga, k1) = as_float_exec(r1, ans, 0);
            let a = match ga {
                Ok(a) => a,
                Err(s) => return stuck_exec(s),
            };
            let (gb, k2) = as_float_exec(r2, ans, k1);
            let b = match gb {
                Ok(b) => b,
                Err(s) => return stuck_exec(s),
            };
            match ask_bits_exec(ans, k2, FloatTask::Arith(kind, a, b)) {
                Ok(c) => self.done_set(dst, Value::Float(c)),
                Err(s) => stuck_exec(s),
            }
        }
    }

    fn arith_int_exec(&mut self, dst: &String, r1: Value, r2: Value, ans: &Vec<Answer>, kind: ArithKind) -> (r: Exec)
        ensures
            exec_is(r, old(self).state(), final(self).state(),
                arith_int(old(self).state(), dst@, r1, r2, answers_view(ans@), kind)),
    {
        if kind == ArithKind::Div {
            let (gb, k1) = as_int_exec(r2, ans, 0);
            let b = match gb {
                Ok(b) => b,
                Err(s) => return stuck_exec(s),
            };
            if b == 0 {
                return Exec::Fault(Fault::DivisionByZero);
            }
            let (ga, k2) = as_int_exec(r1, ans, k1);
            match ga {
                Ok(a) => self.done_set(dst, Value::Int(int_arith_exec(kind, a, b))),
                Err(s) => stuck_exec(s),
            }
        } else {
            let (ga, k1) = as_int_exec(r1, ans, 0);
            let a = match ga {
                Ok(a) => a,
                Err(s) => return stuck_exec(s),
            };
            let (gb, k2) = as_int_exec(r2, ans, k1);
            match gb {
                Ok(b) => self.done_set(dst, Value::Int(int_arith_exec(kind, a, b))),
                Err(s) => stuck_exec(s),
            }
        }
    }

    fn exec_arith_exec(&mut self, parts: &Vec<String>, ans: &Vec<Answer>, kind: ArithKind, float: bool) -> (r: Exec)
        ensures
            exec_is(r, old(self).state(), final(self).state(),
                exec_arith(old(self).state(), string_views(parts@), answers_view(ans@), kind, float)),
    {
        let ghost pv = string_views(parts@);
        if parts.len() < 4 {
            return Exec::Fault(Fault::MissingOperand);
        }
        assert(pv[1] == parts@[1]@ && pv[2] == parts@[2]@ && pv[3] == parts@[3]@);
        match (lookup_value(&self.registers, &parts[2]), lookup_value(&self.registers, &parts[3])) {
            (Some(r1), Some(r2)) => if float {
                self.arith_float_exec(&parts[1], r1, r2, ans, kind)
            } else {
                self.arith_int_exec(&parts[1], r1, r2, ans, kind)
            },
            _ => Exec::Fault(Fault::EmptyRegister),
        }
    }

    fn exec_compare_exec(&mut self, parts: &Vec<String>, ans: &Vec<Answer>, kind: Relation, float_only: bool) -> (r: Exec)
        ensures
            exec_is(r, old(self).state(), final(self).state(),
                exec_compare(old(self).state(), string_views(parts@), answers_view(ans@), kind, float_only)),
    {
        let ghost pv = string_views(parts@);
        if parts.len() < 4 {
            return Exec::Fault(Fault::MissingOperand);
        }
        assert(pv[1] == parts@[1]@ && pv[2] == parts@[2]@ && pv[3] == parts@[3]@);
        match (lookup_value(&self.registers, &parts[2]), lookup_value(&self.registers, &parts[3])) {
            (Some(Value::Int(a)), Some(Value::Int(b))) => {
                let holds = relation_holds_exec(kind, a, b);
                self.done_set(&parts[1], truth_exec(!float_only && holds))
            },
            (Some(Value::Float(a)), Some(Value::Float(b))) => {
                match ask_truth_exec(ans, 0, FloatTask::Compare(kind, a, b)) {
                    Ok(t) => self.done_set(&parts[1], truth_exec(t)),
                    Err(s) => stuck_exec(s),
                }
            },
            (Some(_), Some(_)) => self.done_set(&parts[1], truth_exec(false)),
            _ => Exec::Done(None),
        }
    }

    fn exec_fl_exec(&mut self, parts: &Vec<String>, ans: &Vec<Answer>) -> (r: Exec)
        ensures
            exec_is(r, old(self).state(), final(self).state(),
                exec_fl(old(self).state(), string_views(parts@), answers_view(ans@))),
    {
        let ghost pv = string_views(parts@);
        if parts.len() < 3 {
            return Exec::Fault(Fault::MissingOperand);
        }
        assert(pv[1] == parts@[1]@ && pv[2] == parts@[2]@);
        match lookup_value(&self.registers, &parts[2]) {
            Some(v) => match as_float_exec(v, ans, 0).0 {
                Ok(b) => self.done_set(&parts[1], Value::Float(b)),
                Err(s) => stuck_exec(s),
            },
            None => Exec::Done(None),
        }
    }

    fn exec_neg_int_exec(&mut self, parts: &Vec<String>, ans: &Vec<Answer>) -> (r: Exec)
        ensures
            exec_is(r, old(self).state(), final(self).state(),
                exec_neg_int(old(self).state(), string_views(parts@), answers_view(ans@))),
    {
        let ghost pv = string_views(parts@);
        if parts.len() < 3 {
            return Exec::Fault(Fault::MissingOperand);
        }
        assert(pv[1] == parts@[1]@ && pv[2] == parts@[2]@);
        match lookup_value(&self.registers, &parts[2]) {
            Some(v) => match as_int_exec(v, ans, 0).0 {
                Ok(i) => if i == i32::MIN {
                    Exec::Fault(Fault::Overflow)
                } else {
                    self.done_set(&parts[1], Value::Int(-i))
                },
                Err(s) => stuck_exec(s),
            },
            None => Exec::Done(None),
        }
    }

    fn exec_neg_float_exec(&mut self, parts: &Vec<String>, ans: &Vec<Answer>) -> (r: Exec)
        ensures
            exec_is(r, old(self).state(), final(self).state(),
                exec_neg_float(old(self).state(), string_views(parts@), answers_view(ans@))),
    {
        let ghost pv = string_views(parts@);
        if parts.len() < 3 {
            return Exec::Fault(Fault::MissingOperand);
        }
        assert(pv[1] == parts@[1]@ && pv[2] == parts@[2]@);
        match lookup_value(&self.registers, &parts[2]) {
            Some(v) => {
                let (ga, k1) = as_float_exec(v, ans, 0);
                match ga {
                    Ok(a) => match ask_bits_exec(ans, k1, FloatTask::Negate(a)) {
                        Ok(b) => self.done_set(&parts[1], Value::Float(b)),
                        Err(s) => stuck_exec(s),
                    },
                    Err(s) => stuck_exec(s),
                }
            },
            None => Exec::Done(None),
        }
    }

    fn exec_print_exec(&mut self, parts: &Vec<String>, ans: &Vec<Answer>) -> (r: Exec)
        ensures
            exec_is(r, old(self).state(), final(self).state(),
                exec_print(old(self).state(), string_views(parts@), answers_view(ans@))),
    {
        let ghost pv = string_views(parts@);
        if parts.len() < 2 {
            return Exec::Fault(Fault::MissingOperand);
        }
        assert(pv[1] == parts@[1]@);
        match lookup_value(&self.registers, &parts[1]) {
            Some(v) => match as_text_exec(v, ans, 0) {
                Ok(t) => Exec::Done(Some(t)),
                Err(s) => stuck_exec(s),
            },
            None => Exec::Done(None),
        }
    }
}

impl VM {
    fn execute_exec(&mut self, instruction: &String, ans: &Vec<Answer>) -> (r: Exec)
        ensures
            exec_is(r, old(self).state(), final(self).state(),
                execute(old(self).state(), instruction@, answers_view(ans@))),
    {
        let parts = split_words(instruction);
        if parts.len() == 0 {
            return Exec::Fault(Fault::MissingOperand);
        }
        assert(string_views(parts@)[0] == parts@[0]@);
        let op = &parts[0];
        if same_text(op, "LD") {
            self.exec_ld_exec(&parts, ans)
        } else if same_text(op, "ST") {
            self.exec_st_exec(&parts, ans)
        } else if starts_with_text(op, "ADD") {
            let f = ends_with_text(op, ".f");
            self.exec_arith_exec(&parts, ans, ArithKind::Add, f)
        } else if starts_with_text(op, "SUB") {
            let f = ends_with_text(op, ".f");
            self.exec_arith_exec(&parts, ans, ArithKind::Sub, f)
        } else if starts_with_text(op, "MUL") {
            let f = ends_with_text(op, ".f");
            self.exec_arith_exec(&parts, ans, ArithKind::Mul, f)
        } else if starts_with_text(op, "DIV") {
            let f = ends_with_text(op, ".f");
            self.exec_arith_exec(&parts, ans, ArithKind::Div, f)
        } else if same_text(op, "print") {
            self.exec_print_exec(&parts, ans)
        } else if same_text(op, "FL.i") {
            self.exec_fl_exec(&parts, ans)
        } else if same_text(op, "EQ.i") {
            self.exec_compare_exec(&parts, ans, Relation::Eq, false)
        } else if same_text(op, "NE.i") {
            self.exec_compare_exec(&parts, ans, Relation::Ne, false)
        } else if same_text(op, "LT.i") {
            self.exec_compare_exec(&parts, ans, Relation::Lt, false)
        } else if same_text(op, "GT.i") {
            self.exec_compare_exec(&parts, ans, Relation::Gt, false)
        } else if same_text(op, "LE.i") {
            self.exec_compare_exec(&parts, ans, Relation::Le, false)
        } else if same_text(op, "GE.i") {
            self.exec_compare_exec(&parts, ans, Relation::Ge, false)
        } else if same_text(op, "EQ.f") {
            self.exec_compare_exec(&parts, ans, Relation::Eq, true)
        } else if same_text(op, "NE.f") {
            self.exec_compare_exec(&parts, ans, Relation::Ne, true)
        } else if same_text(op, "LT.f") {
            self.exec_compare_exec(&parts, ans, Relation::Lt, true)
        } else if same_text(op, "GT.f") {
            self.exec_compare_exec(&parts, ans, Relation::Gt, true)
        } else if same_text(op, "LE.f") {
            self.exec_compare_exec(&parts, ans, Relation::Le, true)
        } else if same_text(op, "GE.f") {
            self.exec_compare_exec(&parts, ans, Relation::Ge, true)
        } else if same_text(op, "NEG.i") {
            self.exec_neg_int_exec(&parts, ans)
        } else if same_text(op, "NEG.f") {
            self.exec_neg_float_exec(&parts, ans)
        } else {
            Exec::Fault(Fault::UnknownInstruction(op.clone()))
        }
    }

    /// Runs the instruction at `pc` and moves on to the next one (see `step_spec`).
    /// `answers` holds the host's answers, in order, to the float tasks this
    /// instruction asked for so far; a step that needs one more hands back the task and
    /// changes nothing.
    ///
    /// An instruction that cannot run (blank or short, of an unknown name, reading an
    /// empty source register, dividing by zero, or with a constant that is no number)
    /// is not run: the step answers the `Fault` that names why (see `execute`), leaves
    /// the machine as it was, and promises nothing more; the caller decides what then
    /// happens (the command-line front end stops with an error).
    pub fn step(&mut self, answers: &Vec<Answer>) -> (r: Step)
        ensures
            (r@, final(self).state()) == step_spec(old(self).state(), answers_view(answers@)),
            r is Fault ==> final(self).state() == old(self).state(),
    {
        proof {
            reveal(step_result);
            lemma_ran_moves_on(self.state(), answers_view(answers@));
        }
        if self.pc >= self.program.len() {
            return Step::Halted;
        }
        let instruction = self.program[self.pc].clone();
        assert(instruction@ == self.state().program[self.pc as int]);
        match self.execute_exec(&instruction, answers) {
            Exec::Need(t) => Step::Need(t),
            Exec::Fault(f) => Step::Fault(f),
            Exec::Done(p) => {
                self.pc = self.pc + 1;
                Step::Ran(p)
            },
        }
    }
}

// ---------------------------------------------------------------------------------
// Stepping with a host
// ---------------------------------------------------------------------------------

/// One step, as `step_spec` gives it; kept folded where steps are chained.
#[verifier::opaque]
pub open spec fn step_result(st: VmV, ans: Seq<AnswerV>) -> (StepV, VmV) {
    step_spec(st, ans)
}

/// An instruction asks for at most four answers, so it never needs one more once it
/// has four; while it waits, nothing changes.
pub proof fn lemma_need_bound(st: VmV, ans: Seq<AnswerV>)
    ensures
        step_result(st, ans).0 is Need ==> ans.len() <= 3 && step_result(st, ans).1 == st,
{
    reveal(step_result);
}

/// The `i`-th answer is what `host` gave for the task that the step asked for after
/// the answers before it.
pub open spec fn answered<F: Fn(&FloatTask) -> Answer>(host: F, st: VmV, answers: Seq<Answer>, i: int) -> bool {
    exists|t: FloatTask|
        step_result(st, answers_view(answers.take(i))).0 == StepV::Need(t@)
            && #[trigger] call_ensures(host, (&t,), answers[i])
}

/// Every answer in `answers` came from `host`, in the order the step asked.
pub open spec fn hosted<F: Fn(&FloatTask) -> Answer>(host: F, st: VmV, answers: Seq<Answer>) -> bool {
    forall|i: int| 0 <= i < answers.len() ==> #[trigger] answered(host, st, answers, i)
}

/// One step from `st` to `st2` with outcome `r`, its float tasks answered by `host`.
pub open spec fn ran_with<F: Fn(&FloatTask) -> Answer>(host: F, st: VmV, r: StepV, st2: VmV) -> bool {
    exists|answers: Seq<Answer>|
        #[trigger] hosted(host, st, answers) && step_result(st, answers_view(answers)) == (r, st2)
}

impl VM {
    fn step_folded(&mut self, answers: &Vec<Answer>) -> (r: Step)
        ensures
            (r@, final(self).state()) == step_result(old(self).state(), answers_view(answers@)),
    {
        reveal(step_result);
        self.step(answers)
    }

    /// Runs the instruction at `pc`, asking `host` for each float task it needs.
    pub fn step_with<F: Fn(&FloatTask) -> Answer>(&mut self, host: &F) -> (r: Step)
        requires
            forall|t: &FloatTask| host.requires((t,)),
        ensures
            !(r is Need),
            ran_with(*host, old(self).state(), r@, final(self).state()),
            r is Fault ==> final(self).state() == old(self).state(),
    {
        let ghost st = self.state();
        let mut answers: Vec<Answer> = Vec::new();
        loop
            invariant
                self.state() == st,
                st == old(self).state(),
                hosted(*host, st, answers@),
                answers.len() <= 4,
                forall|t: &FloatTask| host.requires((t,)),
            decreases 4 - answers.len(),
        {
            let r = self.step_folded(&answers);
            match r {
                Step::Need(t) => {
                    proof {
                        lemma_need_bound(st, answers_view(answers@));
                    }
                    let a = host(&t);
                    let ghost before = answers@;
                    proof {
                        assert(step_result(st, answers_view(before)).0 == StepV::Need(t@));
                        assert(call_ensures(*host, (&t,), a));
                        assert(answered(*host, st, before.push(a), before.len() as int)) by {
                            assert(before.push(a).take(before.len() as int) =~= before);
                            assert(before.push(a)[before.len() as int] == a);
                        }
                        assert forall|i: int| 0 <= i < before.len() implies #[trigger] answered(*host, st, before.push(a), i) by {
                            assert(before.push(a).take(i) =~= before.take(i));
                            assert(answered(*host, st, before, i));
                        }
                    }
                    answers.push(a);
                    assert(hosted(*host, st, answers@)) by {
                        assert forall|i: int| 0 <= i < answers@.len() implies #[trigger] answered(*host, st, answers@, i) by {
                            if i < before.len() {
                                assert(answered(*host, st, before.push(a), i));
                            } else {
                                assert(answered(*host, st, before.push(a), before.len() as int));
                            }
                        }
                    }
                },
                _ => {
                    assert(hosted(*host, st, answers@));
                    assert(step_result(st, answers_view(answers@)) == (r@, self.state()));
                    proof { lemma_ran_moves_on(st, answers_view(answers@)); }
                    return r;
                },
            }
        }
    }
}

/// One step leaves the program as it is; a step that ran moves `pc` on by one, from an
/// instruction of the program; any other step changes nothing.
pub proof fn lemma_ran_moves_on(st: VmV, ans: Seq<AnswerV>)
    ensures
        !(step_result(st, ans).0 is Ran) ==> step_result(st, ans).1 == st,
        st.program.len() <= usize::MAX ==> step_result(st, ans).1.program == st.program,
        st.program.len() <= usize::MAX && step_result(st, ans).0 is Ran
            ==> st.pc < st.program.len() && step_result(st, ans).1.pc == st.pc + 1,
{
    reveal(step_result);
    if st.program.len() <= usize::MAX {
        law_step_keeps_program(st, ans);
    }
}

/// The texts that the steps `rs` printed, in order.
pub open spec fn printed_by(rs: Seq<StepV>) -> Seq<Seq<char>>
    decreases rs.len(),
{
    if rs.len() == 0 {
        Seq::empty()
    } else {
        let before = printed_by(rs.drop_last());
        match rs.last() {
            StepV::Ran(Some(t)) => before.push(t),
            _ => before,
        }
    }
}

/// A run goes on after a step with outcome `r` that left the machine in `st`: the step
/// ran, and the next instruction holds no breakpoint.
pub open spec fn goes_on(r: StepV, st: VmV, bps: Set<usize>) -> bool {
    r is Ran && !bps.contains(st.pc)
}

/// The steps `rs` lead through the states `sts`, each answered by `host`; the run went
/// on after every step but the last.
pub open spec fn run_so_far<F: Fn(&FloatTask) -> Answer>(host: F, bps: Set<usize>, sts: Seq<VmV>, rs: Seq<StepV>) -> bool {
    &&& sts.len() == rs.len() + 1
    &&& forall|i: int| 0 <= i < rs.len() ==> #[trigger] ran_with(host, sts[i], rs[i], sts[i + 1])
    &&& forall|i: int| 0 <= i < rs.len() - 1 ==> #[trigger] goes_on(rs[i], sts[i + 1], bps)
}

/// A whole run: it took at least one step and stopped after the last one, which
/// halted, faulted, or reached a breakpoint.
pub open spec fn run_trace<F: Fn(&FloatTask) -> Answer>(host: F, bps: Set<usize>, sts: Seq<VmV>, rs: Seq<StepV>) -> bool {
    &&& run_so_far(host, bps, sts, rs)
    &&& rs.len() >= 1
    &&& !goes_on(rs.last(), sts.last(), bps)
}

/// Why a run stopped.
#[derive(Debug)]
pub enum Stop {
    /// No instruction was left.
    Halted,
    /// The next instruction holds a breakpoint.
    Breakpoint,
    /// An instruction could not run.
    Fault(Fault),
}

/// `stop` is how a run whose last step had outcome `r` ended.
pub open spec fn stopped_as(stop: Stop, r: StepV) -> bool {
    match stop {
        Stop::Halted => r is Halted,
        Stop::Breakpoint => r is Ran,
        Stop::Fault(f) => r == StepV::Fault(f@),
    }
}

impl VM {
    /// Steps until no instruction is left, an instruction cannot run, or the next
    /// instruction holds a breakpoint; float tasks go to `host`. Returns the texts
    /// printed on the way and why the run stopped.
    pub fn run_until<F: Fn(&FloatTask) -> Answer>(&mut self, host: &F, breakpoints: &HashSet<usize>) -> (r: (Vec<String>, Stop))
        requires
            forall|t: &FloatTask| host.requires((t,)),
        ensures
            exists|sts: Seq<VmV>, rs: Seq<StepV>|
                #[trigger] run_trace(*host, breakpoints@, sts, rs)
                    && sts[0] == old(self).state()
                    && sts.last() == final(self).state()
                    && stopped_as(r.1, rs.last())
                    && printed_by(rs) == string_views(r.0@),
    {
        broadcast use vstd::std_specs::hash::group_hash_axioms;
        let ghost st0 = self.state();
        let ghost mut sts: Seq<VmV> = seq![st0];
        let ghost mut rs: Seq<StepV> = Seq::empty();
        let mut printed: Vec<String> = Vec::new();
        let count: usize = self.program.len();
        assert(string_views(printed@) =~= printed_by(rs));
        loop
            invariant
                run_so_far(*host, breakpoints@, sts, rs),
                sts[0] == st0,
                st0 == old(self).state(),
                sts.last() == self.state(),
                self.state().program == st0.program,
                st0.program.len() == count,
                rs.len() > 0 ==> self.state().pc <= count,
                rs.len() > 0 ==> goes_on(rs.last(), sts.last(), breakpoints@),
                printed_by(rs) == string_views(printed@),
                forall|t: &FloatTask| host.requires((t,)),
            decreases count - self.state().pc,
        {
            let ghost before = self.state();
            let r = self.step_with(host);
            proof {
                let ans = choose|answers: Seq<Answer>|
                    #[trigger] hosted(*host, before, answers) && step_result(before, answers_view(answers)) == (r@, self.state());
                lemma_ran_moves_on(before, answers_view(ans));
                let ghost rs0 = rs;
                let ghost sts0 = sts;
                sts = sts.push(self.state());
                rs = rs.push(r@);
                assert(rs.drop_last() =~= rs0);
                assert forall|i: int| 0 <= i < rs.len() implies #[trigger] ran_with(*host, sts[i], rs[i], sts[i + 1]) by {
                    if i < rs0.len() {
                        assert(ran_with(*host, sts0[i], rs0[i], sts0[i + 1]));
                    }
                }
                assert forall|i: int| 0 <= i < rs.len() - 1 implies #[trigger] goes_on(rs[i], sts[i + 1], breakpoints@) by {
                    if i < rs0.len() - 1 {
                        assert(goes_on(rs0[i], sts0[i + 1], breakpoints@));
                    }
                }
            }
            match r {
                Step::Ran(p) => {
                    match p {
                        Some(t) => {
                            let ghost pv = printed@;
                            printed.push(t);
                            assert(string_views(printed@) =~= string_views(pv).push(printed@.last()@));
                        },
                        None => {},
                    }
                    if breakpoints.contains(&self.pc) {
                        assert(breakpoints@.contains(self.pc));
                        assert(!goes_on(rs.last(), sts.last(), breakpoints@));
                        assert(printed_by(rs) == string_views(printed@));
                        assert(run_trace(*host, breakpoints@, sts, rs));
                        return (printed, Stop::Breakpoint);
                    }
                },
                Step::Halted => {
                    assert(printed_by(rs) == string_views(printed@));
                    assert(run_trace(*host, breakpoints@, sts, rs));
                    return (printed, Stop::Halted);
                },
                Step::Fault(f) => {
                    assert(printed_by(rs) == string_views(printed@));
                    assert(run_trace(*host, breakpoints@, sts, rs));
                    assert(stopped_as(Stop::Fault(f), rs.last()));
                    return (printed, Stop::Fault(f));
                },
                Step::Need(t) => {
                    return (printed, Stop::Halted);
                },
            }
        }
    }

    /// Runs the program to its end (or to an instruction that cannot run); float tasks
    /// go to `host`. Returns the texts printed on the way and why the run stopped.
    pub fn run<F: Fn(&FloatTask) -> Answer>(&mut self, host: &F) -> (r: (Vec<String>, Stop))
        requires
            forall|t: &FloatTask| host.requires((t,)),
        ensures
            exists|sts: Seq<VmV>, rs: Seq<StepV>|
                #[trigger] run_trace(*host, Set::empty(), sts, rs)
                    && sts[0] == old(self).state()
                    && sts.last() == final(self).state()
                    && stopped_as(r.1, rs.last())
                    && printed_by(rs) == string_views(r.0@),
    {
        broadcast use vstd::std_specs::hash::group_hash_axioms;
        let none: HashSet<usize> = HashSet::new();
        self.run_until(host, &none)
    }
}

// ---------------------------------------------------------------------------------
// Reading a program
// ---------------------------------------------------------------------------------

/// The index of the first non-whitespace character at or after `i` (or the length).
pub open spec fn solid_from(s: Seq<char>, i: int) -> int
    decreases s.len() - i,
{
    if i < 0 || i >= s.len() { s.len() as int } else if !is_space(s[i]) { i } else { solid_from(s, i + 1) }
}

/// One past the last non-whitespace character before `j` (or 0).
pub open spec fn solid_until(s: Seq<char>, j: int) -> int
    decreases j,
{
    if j <= 0 || j > s.len() { 0 } else if !is_space(s[j - 1]) { j } else { solid_until(s, j - 1) }
}

/// `s` without whitespace at either end (`str::trim`).
pub open spec fn trim(s: Seq<char>) -> Seq<char> {
    let a = solid_from(s, 0);
    let b = solid_until(s, s.len() as int);
    if a >= b { Seq::empty() } else { s.subrange(a, b) }
}

/// A line that holds an instruction: not blank and not a `//` comment.
pub open spec fn is_instruction(line: Seq<char>) -> bool {
    let t = trim(line);
    t.len() > 0 && !starts_with(t, "//"@)
}

/// The instructions among `lines`, trimmed, in order.
pub open spec fn program_lines(lines: Seq<Seq<char>>) -> Seq<Seq<char>>
    decreases lines.len(),
{
    if lines.len() == 0 {
        Seq::empty()
    } else {
        program_lines(lines.drop_last())
            + (if is_instruction(lines.last()) { seq![trim(lines.last())] } else { Seq::empty() })
    }
}

fn trim_exec(s: &String) -> (r: String)
    ensures
        r@ == trim(s@),
{
    let cs = chars_of(s.as_str());
    let mut a: usize = 0;
    while a < cs.len() && is_space_exec(cs[a])
        invariant
            a <= cs.len(),
            cs@ == s@,
            solid_from(s@, 0) == solid_from(s@, a as int),
        decreases cs.len() - a,
    {
        a = a + 1;
    }
    let mut b: usize = cs.len();
    while b > 0 && is_space_exec(cs[b - 1])
        invariant
            b <= cs.len(),
            cs@ == s@,
            solid_until(s@, s@.len() as int) == solid_until(s@, b as int),
        decreases b,
    {
        b = b - 1;
    }
    if a >= b {
        let empty: Vec<char> = Vec::new();
        return string_of(&empty);
    }
    let mut out: Vec<char> = Vec::new();
    let mut i = a;
    while i < b
        invariant
            a <= i <= b <= cs.len(),
            out@ == cs@.subrange(a as int, i as int),
        decreases b - i,
    {
        out.push(cs[i]);
        assert(cs@.subrange(a as int, i + 1) == cs@.subrange(a as int, i as int).push(cs@[i as int]));
        i = i + 1;
    }
    string_of(&out)
}

/// The program in `input`: each line trimmed, blank lines and `//` comments left out.
/// It always succeeds.
pub fn parse_iloc(input: &str) -> (r: Result<Vec<String>, String>)
    ensures
        r matches Ok(program) && string_views(program@) == program_lines(lines_of(input@)),
{
    let lines = split_lines(input);
    let ghost lv = string_views(lines@);
    let mut program: Vec<String> = Vec::new();
    assert(string_views(program@) =~= Seq::<Seq<char>>::empty());
    assert(lv.take(0) =~= Seq::<Seq<char>>::empty());
    for i in 0..lines.len()
        invariant
            lv == string_views(lines@),
            string_views(program@) == program_lines(lv.take(i as int)),
    {
        let line = trim_exec(&lines[i]);
        assert(lv.take(i + 1).drop_last() == lv.take(i as int));
        assert(lv.take(i + 1).last() == lines@[i as int]@);
        if !line.as_str().is_empty() && !starts_with_text(&line, "//") {
            let ghost before = string_views(program@);
            program.push(line);
            assert(string_views(program@) =~= before.push(trim(lv[i as int])));
        } else {
            assert(program_lines(lv.take(i + 1)) =~= program_lines(lv.take(i as int)));
        }
    }
    assert(lv.take(lines.len() as int) == lv);
    Ok(program)
}

// ---------------------------------------------------------------------------------
// Laws
// ---------------------------------------------------------------------------------

#[verifier::spinoff_prover]
#[verifier::rlimit(30)]
proof fn lemma_int_bytes(v: i32)
    ensures
        read_i32(Seq::new(4, |i: int| byte_of(v as int, i as nat)), 0) == v,
{
    reveal_with_fuel(pow256, 4);
    let u: int = (v as int) % 0x1_0000_0000_0000_0000;
    assert(0 <= u < 0x1_0000_0000_0000_0000);
    let w = u as u64;
    assert(((w % 256) + ((w / 256) % 256) * 256 + ((w / 65536) % 256) * 65536 + ((w / 16777216) % 256) * 16777216)
        == w % 4294967296) by (bit_vector);
    let m = Seq::new(4, |i: int| byte_of(v as int, i as nat));
    assert(pow256(0) == 1 && pow256(1) == 256 && pow256(2) == 65536 && pow256(3) == 16777216);
    assert(w as int == u);
    assert(m[0] as int == w % 256) by { assert(u / 1 == u); }
    assert(m[1] as int == (w / 256) % 256);
    assert(m[2] as int == (w / 65536) % 256);
    assert(m[3] as int == (w / 16777216) % 256);
    if v >= 0 {
        assert(u == v);
    } else {
        assert(u == v + 0x1_0000_0000_0000_0000);
        assert((w % 4294967296) as int == v + 0x1_0000_0000) by {
            assert(w as int == v + 0x1_0000_0000_0000_0000);
            assert((v + 0x1_0000_0000_0000_0000) % 0x1_0000_0000 == v + 0x1_0000_0000);
        }
    }
}

/// Reading the four bytes just written as an integer gives the integer back.
proof fn lemma_write_read(mem: Seq<u8>, a: int, v: i32)
    requires
        0 <= a,
        a + 4 <= mem.len(),
    ensures
        read_i32(write_le(mem, a, v as int, 4), a) == v,
{
    let w = write_le(mem, a, v as int, 4);
    lemma_int_bytes(v);
    let m = Seq::new(4, |i: int| byte_of(v as int, i as nat));
    assert(w[a] == m[0] && w[a + 1] == m[1] && w[a + 2] == m[2] && w[a + 3] == m[3]);
}

/// What one machine state, one variable and one value need for the store/load law:
/// the variable is placed with room for four bytes, or it is new and the next free
/// address has room for the value's bytes.
pub open spec fn room_for(st: VmV, x: Seq<char>, v: i32) -> bool {
    st.memory.len() <= usize::MAX && match get(st.memory_map, x) {
        Some(a) => a + 4 <= st.memory.len(),
        None => 0 <= v && st.next_addr + 4 <= st.memory.len() && st.next_addr + 4 * v <= usize::MAX,
    }
}

/// Store, then load: after `ST @x src` with an integer in `src`, `LD dst @x` puts that
/// same integer in `dst` (for a named variable `x` with room in memory).
pub proof fn law_store_then_load(st: VmV, x: Seq<char>, src: Seq<char>, dst: Seq<char>, v: i32, ans: Seq<AnswerV>)
    requires
        get(st.registers, src) == Some(Value::Int(v)),
        x != "print"@,
        parse_usize(x) is None,
        room_for(st, x, v),
    ensures
        exec_st(st, seq!["ST"@, seq!['@'] + x, src], ans) matches ExecV::Done(st2, None)
            && exec_ld(st2, seq!["LD"@, dst, seq!['@'] + x], ans) matches ExecV::Done(st3, None)
            && get(st3.registers, dst) == Some(Value::Int(v)),
{
    reveal_strlit("@");
    reveal_strlit("#");
    reveal_strlit("@print");
    reveal_strlit("print");
    let ax = seq!['@'] + x;
    assert(ax.drop_first() == x);
    assert(starts_with(ax, "@"@)) by {
        assert(ax.subrange(0, 1) =~= "@"@);
    }
    assert(ax != "@print"@) by {
        if ax == "@print"@ {
            assert(ax.drop_first() =~= "print"@);
        }
    }
    assert(!starts_with(ax, "#"@)) by {
        assert(ax.subrange(0, 1) =~= seq!['@']);
        assert(seq!['@'] != "#"@) by { assert(seq!['@'][0] != "#"@[0]); }
    }
    let parts_st = seq!["ST"@, ax, src];
    let parts_ld = seq!["LD"@, dst, ax];
    match get(st.memory_map, x) {
        Some(a) => {
            let m2 = write_le(st.memory, a as int, v as int, 4);
            assert(store_value(st.memory, a, Value::Int(v)) == Some(m2));
            let st2 = VmV { memory: m2, ..st };
            assert(exec_st(st, parts_st, ans) == ExecV::Done(st2, None));
            lemma_write_read(st.memory, a as int, v);
            assert(exec_ld(st2, parts_ld, ans) == set_reg(st2, dst, Value::Int(v)));
            lemma_get_put(st2.registers, dst, Value::Int(v));
        },
        None => {
            let a = st.next_addr;
            let size: int = (v as usize) as int * 4;
            assert(size == 4 * v);
            let st1 = VmV {
                next_addr: (a + size) as usize,
                memory: zero_range(st.memory, a as int, a + size),
                memory_map: put(st.memory_map, x, a),
                ..st
            };
            let m2 = write_le(st1.memory, a as int, v as int, 4);
            assert(store_value(st1.memory, a, Value::Int(v)) == Some(m2));
            let st2 = VmV { memory: m2, ..st1 };
            assert(exec_st(st, parts_st, ans) == ExecV::Done(st2, None));
            lemma_get_put(st.memory_map, x, a);
            lemma_write_read(st1.memory, a as int, v);
            assert(exec_ld(st2, parts_ld, ans) == set_reg(st2, dst, Value::Int(v)));
            lemma_get_put(st2.registers, dst, Value::Int(v));
        },
    }
}

/// After `put`, the name holds the value put.
pub(crate) proof fn lemma_get_put<V>(vs: Seq<(Seq<char>, V)>, name: Seq<char>, v: V)
    ensures
        get(put(vs, name, v), name) == Some(v),
{
    lemma_index_from_found(vs, name, 0);
    let k = index_from(vs, name, 0);
    let vs2 = put(vs, name, v);
    if 0 <= k < vs.len() {
        lemma_index_from_same(vs, vs2, name, 0, k);
    } else {
        lemma_index_from_same(vs, vs2, name, 0, vs.len() as int);
    }
}

proof fn lemma_index_from_found<V>(vs: Seq<(Seq<char>, V)>, name: Seq<char>, i: int)
    requires
        0 <= i,
    ensures
        i <= index_from(vs, name, i) <= vs.len() || (i > vs.len() && index_from(vs, name, i) == vs.len()),
        index_from(vs, name, i) < vs.len() ==> vs[index_from(vs, name, i)].0 == name,
        forall|j: int| i <= j < index_from(vs, name, i) ==> vs[j].0 != name,
    decreases vs.len() - i,
{
    if i < vs.len() && vs[i].0 != name {
        lemma_index_from_found(vs, name, i + 1);
    }
}

/// Entries before `k` keep their names in `vs2`, and entry `k` (if any) is named `name`.
proof fn lemma_index_from_same<V>(vs: Seq<(Seq<char>, V)>, vs2: Seq<(Seq<char>, V)>, name: Seq<char>, i: int, k: int)
    requires
        0 <= i <= k,
        k <= vs.len(),
        vs2.len() >= vs.len(),
        k < vs2.len(),
        vs2[k].0 == name,
        forall|j: int| i <= j < k ==> vs[j].0 != name && vs2[j].0 == vs[j].0,
    ensures
        index_from(vs2, name, i) == k,
    decreases k - i,
{
    if i < k {
        lemma_index_from_same(vs, vs2, name, i + 1, k);
    }
}

// --- words ---

/// A word: not empty, with no whitespace in it.
pub open spec fn is_word(w: Seq<char>) -> bool {
    w.len() > 0 && forall|k: int| 0 <= k < w.len() ==> !is_space(#[trigger] w[k])
}

proof fn lemma_words_solid(s: Seq<char>, i: int, j: int, cur: Seq<char>)
    requires
        0 <= i <= j <= s.len(),
        forall|k: int| i <= k < j ==> !is_space(#[trigger] s[k]),
    ensures
        words_from(s, i, cur) == words_from(s, j, cur + s.subrange(i, j)),
    decreases j - i,
{
    if i < j {
        lemma_words_solid(s, i + 1, j, cur.push(s[i]));
        assert(cur.push(s[i]) + s.subrange(i + 1, j) =~= cur + s.subrange(i, j));
    } else {
        assert(cur + s.subrange(i, j) =~= cur);
    }
}

proof fn lemma_words_shift(x: Seq<char>, y: Seq<char>, j: int, cur: Seq<char>)
    requires
        0 <= j <= y.len(),
    ensures
        words_from(x + y, x.len() + j, cur) == words_from(y, j, cur),
    decreases y.len() - j,
{
    if j < y.len() {
        assert((x + y)[x.len() + j] == y[j]);
        lemma_words_shift(x, y, j + 1, Seq::empty());
        lemma_words_shift(x, y, j + 1, cur.push(y[j]));
    }
}

/// The words of one word are that word.
pub(crate) proof fn lemma_words_one(w: Seq<char>)
    requires
        is_word(w),
    ensures
        words(w) == seq![w],
{
    lemma_words_solid(w, 0, w.len() as int, Seq::empty());
    assert(Seq::<char>::empty() + w.subrange(0, w.len() as int) =~= w);
}

/// A word, a space, then more: the word comes first.
proof fn lemma_words_cons(w: Seq<char>, rest: Seq<char>)
    requires
        is_word(w),
    ensures
        words(w + seq![' '] + rest) == seq![w] + words(rest),
{
    let s = w + seq![' '] + rest;
    assert forall|k: int| 0 <= k < w.len() implies !is_space(#[trigger] s[k]) by {
        assert(s[k] == w[k]);
    }
    lemma_words_solid(s, 0, w.len() as int, Seq::empty());
    assert(Seq::<char>::empty() + s.subrange(0, w.len() as int) =~= w);
    assert(s[w.len() as int] == ' ');
    assert(words_from(s, w.len() as int, w) == seq![w] + words_from(s, w.len() as int + 1, Seq::empty()));
    assert(s =~= (w + seq![' ']) + rest);
    lemma_words_shift(w + seq![' '], rest, 0, Seq::empty());
}

/// The words of three words joined by single spaces.
pub proof fn lemma_words_three(a: Seq<char>, b: Seq<char>, c: Seq<char>)
    requires
        is_word(a),
        is_word(b),
        is_word(c),
    ensures
        words(a + seq![' '] + b + seq![' '] + c) == seq![a, b, c],
{
    lemma_words_one(c);
    lemma_words_cons(b, c);
    lemma_words_cons(a, b + seq![' '] + c);
    assert(a + seq![' '] + b + seq![' '] + c =~= a + seq![' '] + (b + seq![' '] + c));
    assert(seq![a] + (seq![b] + seq![c]) =~= seq![a, b, c]);
}

/// The words of four words joined by single spaces.
pub proof fn lemma_words_four(a: Seq<char>, b: Seq<char>, c: Seq<char>, d: Seq<char>)
    requires
        is_word(a),
        is_word(b),
        is_word(c),
        is_word(d),
    ensures
        words(a + seq![' '] + b + seq![' '] + c + seq![' '] + d) == seq![a, b, c, d],
{
    lemma_words_three(b, c, d);
    lemma_words_cons(a, b + seq![' '] + c + seq![' '] + d);
    assert(a + seq![' '] + b + seq![' '] + c + seq![' '] + d =~= a + seq![' '] + (b + seq![' '] + c + seq![' '] + d));
    assert(seq![a] + seq![b, c, d] =~= seq![a, b, c, d]);
}

proof fn lemma_index_same_names<V>(vs: Seq<(Seq<char>, V)>, vs2: Seq<(Seq<char>, V)>, n: Seq<char>, i: int)
    requires
        0 <= i,
        vs2.len() >= vs.len(),
        forall|j: int| i <= j < vs.len() ==> ((#[trigger] vs2[j]).0 == n) == (vs[j].0 == n),
        forall|j: int| vs.len() <= j < vs2.len() ==> (#[trigger] vs2[j]).0 != n,
    ensures
        index_from(vs2, n, i) == (if index_from(vs, n, i) < vs.len() { index_from(vs, n, i) } else { vs2.len() as int }),
    decreases vs2.len() - i,
{
    if i < vs2.len() {
        lemma_index_same_names(vs, vs2, n, i + 1);
    }
}

/// `get` under one name is not changed by a `put` under another.
pub(crate) proof fn lemma_get_put_other<V>(vs: Seq<(Seq<char>, V)>, n1: Seq<char>, v: V, n2: Seq<char>)
    requires
        n1 != n2,
    ensures
        get(put(vs, n1, v), n2) == get(vs, n2),
{
    let k1 = index_from(vs, n1, 0);
    lemma_index_from_found(vs, n1, 0);
    lemma_index_from_found(vs, n2, 0);
    let vs2 = put(vs, n1, v);
    lemma_index_same_names(vs, vs2, n2, 0);
    let k2 = index_from(vs, n2, 0);
    if 0 <= k2 < vs.len() {
        assert(k2 != k1 || !(0 <= k1 < vs.len()));
        assert(vs2[k2] == vs[k2]);
    }
}

/// `a` is `b` with possibly more at the end.
pub open spec fn extends(a: Seq<Seq<char>>, b: Seq<Seq<char>>) -> bool {
    a.len() >= b.len() && a.subrange(0, b.len() as int) == b
}

/// `e`, when it runs, keeps the program, `pc` and memory size of `st`, and only adds
/// to its output.
pub open spec fn keeps(st: VmV, e: ExecV) -> bool {
    e matches ExecV::Done(st2, _) ==> {
        &&& st2.program == st.program
        &&& st2.pc == st.pc
        &&& st2.memory.len() == st.memory.len()
        &&& extends(st2.output, st.output)
    }
}

proof fn lemma_extends_self(o: Seq<Seq<char>>)
    ensures
        extends(o, o),
        forall|t: Seq<char>| #[trigger] extends(o.push(t), o),
{
    assert(o.subrange(0, o.len() as int) =~= o);
    assert forall|t: Seq<char>| #[trigger] extends(o.push(t), o) by {
        assert(o.push(t).subrange(0, o.len() as int) =~= o);
    }
}

proof fn lemma_keeps_store(st: VmV, addr: usize, v: Option<Value>)
    ensures
        keeps(st, store_at(st, addr, v)),
{
    lemma_extends_self(st.output);
}

proof fn lemma_keeps_ld(st: VmV, parts: Seq<Seq<char>>, ans: Seq<AnswerV>)
    ensures
        keeps(st, exec_ld(st, parts, ans)),
{
    lemma_extends_self(st.output);
}

proof fn lemma_keeps_st(st: VmV, parts: Seq<Seq<char>>, ans: Seq<AnswerV>)
    ensures
        keeps(st, exec_st(st, parts, ans)),
{
    lemma_extends_self(st.output);
    if parts.len() >= 3 {
        let src_v = get(st.registers, parts[2]);
        lemma_keeps_store(st, 0, src_v);
        let dst = parts[1];
        if dst != "@print"@ && starts_with(dst, "@"@) {
            let name = dst.drop_first();
            match parse_usize(name) {
                Some(a) => lemma_keeps_store(st, a, src_v),
                None => match get(st.memory_map, name) {
                    Some(a) => lemma_keeps_store(st, a, src_v),
                    None => {
                        let size: int = match src_v {
                            Some(Value::Int(n)) => (n as usize) as int * 4,
                            _ => 4,
                        };
                        if !(size > usize::MAX || st.next_addr + size > usize::MAX) {
                            let a = st.next_addr;
                            let st2 = VmV {
                                next_addr: (a + size) as usize,
                                memory: zero_range(st.memory, a as int, a + size),
                                memory_map: put(st.memory_map, name, a),
                                ..st
                            };
                            lemma_keeps_store(st2, a, src_v);
                        }
                    },
                },
            }
        } else if dst != "@print"@ {
            match get(st.registers, dst) {
                Some(Value::Int(a)) => lemma_keeps_store(st, a as usize, src_v),
                _ => {},
            }
        }
    }
}

proof fn lemma_keeps_rest(st: VmV, parts: Seq<Seq<char>>, ans: Seq<AnswerV>)
    ensures
        forall|k: ArithKind, f: bool| #[trigger] keeps(st, exec_arith(st, parts, ans, k, f)),
        forall|k: Relation, f: bool| #[trigger] keeps(st, exec_compare(st, parts, ans, k, f)),
        keeps(st, exec_fl(st, parts, ans)),
        keeps(st, exec_neg_int(st, parts, ans)),
        keeps(st, exec_neg_float(st, parts, ans)),
        keeps(st, exec_print(st, parts, ans)),
{
    lemma_extends_self(st.output);
}

proof fn lemma_execute_keeps(st: VmV, instr: Seq<char>, ans: Seq<AnswerV>)
    ensures
        keeps(st, execute(st, instr, ans)),
{
    let parts = words(instr);
    lemma_keeps_ld(st, parts, ans);
    lemma_keeps_st(st, parts, ans);
    lemma_keeps_rest(st, parts, ans);
}

proof fn lemma_execute_st(st: VmV, instr: Seq<char>, ans: Seq<AnswerV>)
    requires
        words(instr).len() == 3,
        words(instr)[0] == "ST"@,
    ensures
        execute(st, instr, ans) == exec_st(st, words(instr), ans),
{
    reveal_strlit("ST");
    reveal_strlit("LD");
    assert("ST"@[0] != "LD"@[0]);
}

proof fn lemma_execute_ld(st: VmV, instr: Seq<char>, ans: Seq<AnswerV>)
    requires
        words(instr).len() == 3,
        words(instr)[0] == "LD"@,
    ensures
        execute(st, instr, ans) == exec_ld(st, words(instr), ans),
{
}

/// Loading does not look at `pc`.
proof fn lemma_ld_ignores_pc(st: VmV, p: usize, parts: Seq<Seq<char>>, ans: Seq<AnswerV>)
    ensures
        exec_ld(st, parts, ans) matches ExecV::Done(s1, p1) ==> exec_ld(VmV { pc: p, ..st }, parts, ans) matches ExecV::Done(s2, p2)
            && s2.registers == s1.registers && p2 == p1,
{
}

/// A step whose instruction runs to `s`, printing `p`.
proof fn lemma_step_done(st: VmV, ans: Seq<AnswerV>, s: VmV, p: Option<Seq<char>>)
    requires
        st.pc < st.program.len(),
        execute(st, st.program[st.pc as int], ans) == ExecV::Done(s, p),
    ensures
        step_spec(st, ans) == (StepV::Ran(p), VmV { pc: (st.pc + 1) as usize, ..s }),
{
}

/// Store, then load, one step each: when the next two instructions are `ST @x src`
/// and `LD dst @x`, with an integer in `src` and room in memory for the named variable
/// `x`, two steps run both, print nothing, and leave that integer in `dst`.
#[verifier::spinoff_prover]
#[verifier::rlimit(40)]
pub proof fn law_steps_store_then_load(st: VmV, x: Seq<char>, src: Seq<char>, dst: Seq<char>, v: i32, ans: Seq<AnswerV>)
    requires
        st.program.len() <= usize::MAX,
        st.pc + 1 < st.program.len(),
        st.program[st.pc as int] == "ST"@ + seq![' '] + (seq!['@'] + x) + seq![' '] + src,
        st.program[st.pc + 1] == "LD"@ + seq![' '] + dst + seq![' '] + (seq!['@'] + x),
        is_word(x),
        is_word(src),
        is_word(dst),
        get(st.registers, src) == Some(Value::Int(v)),
        x != "print"@,
        parse_usize(x) is None,
        room_for(st, x, v),
    ensures
        ({
            let (r1, st2) = step_spec(st, ans);
            let (r2, st3) = step_spec(st2, ans);
            &&& r1 == StepV::Ran(None)
            &&& r2 == StepV::Ran(None)
            &&& st3.pc == st.pc + 2
            &&& st3.program == st.program
            &&& get(st3.registers, dst) == Some(Value::Int(v))
        }),
{
    reveal_strlit("ST");
    reveal_strlit("LD");
    let ax = seq!['@'] + x;
    assert(is_word(ax)) by {
        assert forall|k: int| 0 <= k < ax.len() implies !is_space(#[trigger] ax[k]) by {
            if k > 0 {
                assert(ax[k] == x[k - 1]);
            }
        }
    }
    assert(is_word("ST"@));
    assert(is_word("LD"@));
    let i1 = st.program[st.pc as int];
    let i2 = st.program[st.pc + 1];
    lemma_words_three("ST"@, ax, src);
    lemma_words_three("LD"@, dst, ax);
    law_store_then_load(st, x, src, dst, v, ans);
    lemma_execute_st(st, i1, ans);
    let st2 = match exec_st(st, words(i1), ans) { ExecV::Done(s, _) => s, _ => st };
    lemma_step_done(st, ans, st2, None);
    law_step_keeps_program(st, ans);
    let st2p = VmV { pc: (st.pc + 1) as usize, ..st2 };
    assert(st2p.program[st2p.pc as int] == i2);
    lemma_execute_ld(st2p, i2, ans);
    lemma_ld_ignores_pc(st2, st2p.pc, words(i2), ans);
    let st3 = match exec_ld(st2p, words(i2), ans) { ExecV::Done(s, _) => s, _ => st };
    lemma_step_done(st2p, ans, st3, None);
}

/// A step never changes the program or the size of memory, and output is only ever
/// added to at the end; a step that runs moves `pc` on by one.
pub proof fn law_step_keeps_program(st: VmV, ans: Seq<AnswerV>)
    requires
        st.program.len() <= usize::MAX,
    ensures
        ({
            let (r, st2) = step_spec(st, ans);
            &&& st2.program == st.program
            &&& st2.memory.len() == st.memory.len()
            &&& extends(st2.output, st.output)
            &&& (r is Ran ==> st2.pc == st.pc + 1)
            &&& (!(r is Ran) ==> st2 == st)
        }),
{
    lemma_extends_self(st.output);
    if st.pc < st.program.len() {
        let e = execute(st, st.program[st.pc as int], ans);
        lemma_execute_keeps(st, st.program[st.pc as int], ans);
        match e {
            ExecV::Done(st2, p) => {
                assert(step_spec(st, ans) == (StepV::Ran(p), VmV { pc: (st.pc + 1) as usize, ..st2 }));
            },
            ExecV::Need(t) => {
                assert(step_spec(st, ans) == (StepV::Need(t), st));
            },
            ExecV::Fault(f) => {
                assert(step_spec(st, ans) == (StepV::Fault(f), st));
            },
        }
    }
}

/// The program read from a text holds only trimmed, non-blank lines that are not
/// comments.
pub proof fn law_program_lines_clean(lines: Seq<Seq<char>>)
    ensures
        forall|k: int| 0 <= k < program_lines(lines).len() ==> {
            let l = #[trigger] program_lines(lines)[k];
            &&& l.len() > 0
            &&& !starts_with(l, "//"@)
            &&& l == trim(l)
        },
    decreases lines.len(),
{
    if lines.len() > 0 {
        law_program_lines_clean(lines.drop_last());
        let prev = program_lines(lines.drop_last());
        let l = lines.last();
        if is_instruction(l) {
            lemma_trim_idempotent(l);
            assert forall|k: int| 0 <= k < program_lines(lines).len() implies {
                let x = #[trigger] program_lines(lines)[k];
                &&& x.len() > 0
                &&& !starts_with(x, "//"@)
                &&& x == trim(x)
            } by {
                if k < prev.len() {
                    assert(program_lines(lines)[k] == prev[k]);
                } else {
                    assert(program_lines(lines)[k] == trim(l));
                }
            }
        } else {
            assert(program_lines(lines) =~= prev);
        }
    }
}

proof fn lemma_solid_from_bounds(s: Seq<char>, i: int)
    requires
        0 <= i <= s.len(),
    ensures
        i <= solid_from(s, i) <= s.len(),
        solid_from(s, i) < s.len() ==> !is_space(s[solid_from(s, i)]),
        forall|k: int| i <= k < solid_from(s, i) ==> is_space(#[trigger] s[k]),
    decreases s.len() - i,
{
    if i < s.len() && is_space(s[i]) {
        lemma_solid_from_bounds(s, i + 1);
    }
}

proof fn lemma_solid_until_bounds(s: Seq<char>, j: int)
    requires
        0 <= j <= s.len(),
    ensures
        0 <= solid_until(s, j) <= j,
        solid_until(s, j) > 0 ==> !is_space(s[solid_until(s, j) - 1]),
        forall|k: int| solid_until(s, j) <= k < j ==> is_space(#[trigger] s[k]),
    decreases j,
{
    if j > 0 && is_space(s[j - 1]) {
        lemma_solid_until_bounds(s, j - 1);
    }
}

/// Trimming twice is trimming once.
proof fn lemma_trim_idempotent(s: Seq<char>)
    ensures
        trim(trim(s)) == trim(s),
{
    lemma_solid_from_bounds(s, 0);
    lemma_solid_until_bounds(s, s.len() as int);
    let t = trim(s);
    lemma_solid_from_bounds(t, 0);
    lemma_solid_until_bounds(t, t.len() as int);
    let a = solid_from(s, 0);
    let b = solid_until(s, s.len() as int);
    if a < b {
        assert(t.len() > 0);
        assert(!is_space(t[0]));
        assert(!is_space(t[t.len() - 1]));
        assert(solid_from(t, 0) == 0);
        assert(solid_until(t, t.len() as int) == t.len());
        assert(t.subrange(0, t.len() as int) =~= t);
    } else {
        assert(t.len() == 0);
    }
}

// ---------------------------------------------------------------------------------
// Writing a program out and reading it back
// ---------------------------------------------------------------------------------

pub open spec fn no_newline(l: Seq<char>) -> bool {
    forall|k: int| 0 <= k < l.len() ==> #[trigger] l[k] != '\n'
}

/// Every line that `lines_from` gives is free of line breaks.
proof fn lemma_lines_from_no_newline(s: Seq<char>, i: int)
    requires
        0 <= i,
    ensures
        forall|k: int| 0 <= k < lines_from(s, i).len() ==> no_newline(#[trigger] lines_from(s, i)[k]),
    decreases s.len() - i,
{
    if i < s.len() {
        lemma_first_newline(s, i);
        let e = first_newline(s, i);
        if e < s.len() {
            lemma_lines_from_no_newline(s, e + 1);
        }
        let line = if e < s.len() && e > i && s[e - 1] == '\r' { s.subrange(i, e - 1) } else { s.subrange(i, e) };
        assert(no_newline(line));
        assert forall|k: int| 0 <= k < lines_from(s, i).len() implies no_newline(#[trigger] lines_from(s, i)[k]) by {
            if k > 0 {
                assert(lines_from(s, i)[k] == lines_from(s, e + 1)[k - 1]);
            }
        }
    }
}

/// The instructions read from lines free of line breaks are free of them too.
proof fn lemma_program_lines_no_newline(lines: Seq<Seq<char>>)
    requires
        forall|k: int| 0 <= k < lines.len() ==> no_newline(#[trigger] lines[k]),
    ensures
        forall|k: int| 0 <= k < program_lines(lines).len() ==> no_newline(#[trigger] program_lines(lines)[k]),
    decreases lines.len(),
{
    if lines.len() > 0 {
        let prev = lines.drop_last();
        assert forall|k: int| 0 <= k < prev.len() implies no_newline(#[trigger] prev[k]) by {
            assert(prev[k] == lines[k]);
        }
        lemma_program_lines_no_newline(prev);
        let l = lines.last();
        assert(no_newline(lines[lines.len() - 1]));
        lemma_solid_from_bounds(l, 0);
        lemma_solid_until_bounds(l, l.len() as int);
        assert(no_newline(trim(l)));
        assert forall|k: int| 0 <= k < program_lines(lines).len() implies no_newline(#[trigger] program_lines(lines)[k]) by {
            if k < program_lines(prev).len() {
                assert(program_lines(lines)[k] == program_lines(prev)[k]);
            }
        }
    }
}

/// Lines that are already trimmed, non-blank instructions are read as they are.
proof fn lemma_program_lines_of_clean(p: Seq<Seq<char>>)
    requires
        forall|k: int| 0 <= k < p.len() ==> {
            let l = #[trigger] p[k];
            &&& l.len() > 0
            &&& !starts_with(l, "//"@)
            &&& l == trim(l)
        },
    ensures
        program_lines(p) == p,
    decreases p.len(),
{
    if p.len() > 0 {
        let prev = p.drop_last();
        assert forall|k: int| 0 <= k < prev.len() implies {
            let l = #[trigger] prev[k];
            &&& l.len() > 0
            &&& !starts_with(l, "//"@)
            &&& l == trim(l)
        } by {
            assert(prev[k] == p[k]);
        }
        lemma_program_lines_of_clean(prev);
        let l = p[p.len() - 1];
        assert(is_instruction(l));
        assert(p =~= prev.push(l));
    }
}

/// `first_newline` finds the first line break at or after `i`.
pub(crate) proof fn lemma_first_newline_is(s: Seq<char>, i: int, e: int)
    requires
        0 <= i <= e <= s.len(),
        forall|j: int| i <= j < e ==> s[j] != '\n',
        e < s.len() ==> s[e] == '\n',
    ensures
        first_newline(s, i) == e,
{
    lemma_first_newline(s, i);
    let f = first_newline(s, i);
    if f < e {
        assert(s[f] == '\n');
    } else if f > e {
        assert(s[e] != '\n');
    }
}

/// The lines of `a`, a line break and `b` are the lines of `a` from `i` and then `b`,
/// when `a` ends in neither a line break nor a carriage return and `b` is a non-empty
/// line.
pub(crate) proof fn lemma_lines_then_line(a: Seq<char>, b: Seq<char>, i: int)
    requires
        0 <= i < a.len(),
        a.last() != '\n',
        a.last() != '\r',
        b.len() > 0,
        no_newline(b),
    ensures
        lines_from(a + "\n"@ + b, i) == lines_from(a, i).push(b),
    decreases a.len() - i,
{
    reveal_strlit("\n");
    let s = a + "\n"@ + b;
    assert(s.len() == a.len() + 1 + b.len());
    assert(forall|j: int| 0 <= j < a.len() ==> s[j] == a[j]);
    assert(s[a.len() as int] == '\n');
    lemma_first_newline(a, i);
    let e = first_newline(a, i);
    let n = a.len() as int;
    // the line from the break on
    lemma_first_newline_is(s, n + 1, s.len() as int);
    assert(s.subrange(n + 1, s.len() as int) =~= b);
    assert(lines_from(s, n + 1) == seq![b]);
    if e < n {
        lemma_first_newline_is(s, i, e);
        assert(s.subrange(i, e) =~= a.subrange(i, e));
        assert(e > i ==> s.subrange(i, e - 1) =~= a.subrange(i, e - 1));
        if e + 1 < n {
            lemma_lines_then_line(a, b, e + 1);
        } else {
            assert(a[e] == '\n');
            assert(e + 1 != n);
        }
        assert(lines_from(s, i) =~= lines_from(a, i).push(b));
    } else {
        lemma_first_newline_is(s, i, n);
        assert(s.subrange(i, n) =~= a.subrange(i, n));
        assert(lines_from(s, i) =~= lines_from(a, i).push(b));
    }
}

/// The last character of lines joined is that of the last line.
proof fn lemma_join_last(p: Seq<Seq<char>>, sep: Seq<char>)
    requires
        p.len() > 0,
        p.last().len() > 0,
    ensures
        join(p, sep).len() > 0,
        join(p, sep).last() == p.last().last(),
{
}

/// Non-empty lines free of line breaks, none ending in a carriage return, joined with
/// line breaks, are read back as the same lines.
proof fn lemma_lines_of_join(p: Seq<Seq<char>>)
    requires
        forall|k: int| 0 <= k < p.len() ==> {
            let l = #[trigger] p[k];
            &&& l.len() > 0
            &&& no_newline(l)
            &&& l.last() != '\r'
        },
    ensures
        lines_of(join(p, "\n"@)) == p,
    decreases p.len(),
{
    if p.len() == 1 {
        let l = p[0];
        lemma_first_newline_is(l, 0, l.len() as int);
        assert(l.subrange(0, l.len() as int) =~= l);
        assert(lines_of(join(p, "\n"@)) =~= p);
    } else if p.len() > 1 {
        let prev = p.drop_last();
        assert forall|k: int| 0 <= k < prev.len() implies {
            let l = #[trigger] prev[k];
            &&& l.len() > 0
            &&& no_newline(l)
            &&& l.last() != '\r'
        } by {
            assert(prev[k] == p[k]);
        }
        lemma_lines_of_join(prev);
        let a = join(prev, "\n"@);
        let b = p[p.len() - 1];
        lemma_join_last(prev, "\n"@);
        assert(prev.last() == p[p.len() - 2]);
        lemma_lines_then_line(a, b, 0);
        assert(join(p, "\n"@) == a + "\n"@ + b);
        assert(p =~= prev.push(b));
    }
}

/// Writing a program out one instruction a line and reading it back gives the same
/// program.
pub proof fn law_program_round_trip(text: Seq<char>)
    ensures
        program_lines(lines_of(join(program_lines(lines_of(text)), "\n"@))) == program_lines(lines_of(text)),
{
    let lines = lines_of(text);
    let p = program_lines(lines);
    lemma_lines_from_no_newline(text, 0);
    lemma_program_lines_no_newline(lines);
    law_program_lines_clean(lines);
    assert forall|k: int| 0 <= k < p.len() implies {
        let l = #[trigger] p[k];
        &&& l.len() > 0
        &&& no_newline(l)
        &&& l.last() != '\r'
    } by {
        let l = p[k];
        lemma_solid_until_bounds(l, l.len() as int);
        lemma_solid_from_bounds(l, 0);
        assert(l == trim(l));
        assert(!is_space(l[l.len() - 1]));
    }
    lemma_lines_of_join(p);
    lemma_program_lines_of_clean(p);
}

} // verus!
