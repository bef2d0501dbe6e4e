//! The code generator: turns one parsed expression into register-machine instructions
//! (`LD`, `ST`, arithmetic and comparisons on numbered registers `R0`, `R1`, ...), or
//! into the single line `ERROR` when the expression cannot be compiled.
use vstd::prelude::*;
use crate::parser::{Expr, ExprV, ParseError, ParseErrorV, results_view};
use crate::number::{Real, RealV, real_text};
use crate::text::{int_text, nat_text, is_digit, string_views, chars_of, string_of, push_str, push_int, push_neg_int, push_all, owned};

verus! {

// ---------------------------------------------------------------------------------
// The instructions, as text
// ---------------------------------------------------------------------------------

/// A register's name: `R` and its number.
pub open spec fn reg(k: int) -> Seq<char> {
    "R"@ + int_text(k)
}

/// `NAME Ra Rb`.
pub open spec fn ins2(name: Seq<char>, a: int, b: int) -> Seq<char> {
    name + " "@ + reg(a) + " "@ + reg(b)
}

/// `NAME Ra Rb Rc`.
pub open spec fn ins3(name: Seq<char>, a: int, b: int, c: int) -> Seq<char> {
    ins2(name, a, b) + " "@ + reg(c)
}

/// `NAME Ra` followed by a constant (`sigil` is `#`) or a variable (`sigil` is `@`).
pub open spec fn ins_val(name: Seq<char>, a: int, sigil: char, t: Seq<char>) -> Seq<char> {
    name + " "@ + reg(a) + " "@ + seq![sigil] + t
}

/// `ST @name Rk`: stores register `k` into the variable `name`.
pub open spec fn st_var(name: Seq<char>, k: int) -> Seq<char> {
    "ST @"@ + name + " "@ + reg(k)
}

/// The single line that marks an expression that cannot be compiled.
pub open spec fn error_lines() -> Seq<Seq<char>> {
    seq!["ERROR"@]
}

// ---------------------------------------------------------------------------------
// Operands
// ---------------------------------------------------------------------------------

/// A value that one load (or a load and a negation) puts in a register.
pub enum OperandV {
    Int(int),
    Float(RealV),
    Var(Seq<char>),
    NegVar(Seq<char>),
}

/// The operand an expression stands for: a number, a variable, or either negated by
/// a unary minus (a negated number is folded into the constant).
pub open spec fn operand(e: ExprV) -> Option<OperandV> {
    match e {
        ExprV::Int(n) => Some(OperandV::Int(n as int)),
        ExprV::Float(r) => Some(OperandV::Float(r)),
        ExprV::Variable(v) => Some(OperandV::Var(v)),
        ExprV::UnaryOp(op, inner) => if op == "-"@ {
            match *inner {
                ExprV::Int(n) => Some(OperandV::Int(-(n as int))),
                ExprV::Float(r) => Some(OperandV::Float(RealV { negative: !r.negative, ..r })),
                ExprV::Variable(v) => Some(OperandV::NegVar(v)),
                _ => None,
            }
        } else {
            None
        },
        _ => None,
    }
}

pub open spec fn is_float(o: OperandV) -> bool {
    o is Float
}

/// The instructions that put operand `o` in register `k`.
pub open spec fn load(o: OperandV, k: int) -> Seq<Seq<char>> {
    match o {
        OperandV::Int(n) => seq![ins_val("LD"@, k, '#', int_text(n))],
        OperandV::Float(r) => seq![ins_val("LD"@, k, '#', real_text(r))],
        OperandV::Var(v) => seq![ins_val("LD"@, k, '@', v)],
        OperandV::NegVar(v) => seq![ins_val("LD"@, k, '@', v), ins2("NEG.i"@, k, k)],
    }
}

/// `FL.i Rk Rk` (integer to float in place) when `convert` holds, else nothing.
pub open spec fn to_float(convert: bool, k: int) -> Seq<Seq<char>> {
    if convert { seq![ins2("FL.i"@, k, k)] } else { Seq::empty() }
}

// ---------------------------------------------------------------------------------
// Operators
// ---------------------------------------------------------------------------------

/// The instruction for an arithmetic operator, on integers or on floats.
pub open spec fn arith_name(op: Seq<char>, float: bool) -> Option<Seq<char>> {
    if op == "+"@ {
        Some(if float { "ADD.f"@ } else { "ADD.i"@ })
    } else if op == "-"@ {
        Some(if float { "SUB.f"@ } else { "SUB.i"@ })
    } else if op == "*"@ {
        Some(if float { "MUL.f"@ } else { "MUL.i"@ })
    } else if op == "/"@ {
        Some(if float { "DIV.f"@ } else { "DIV.i"@ })
    } else {
        None
    }
}

/// The instruction for a comparison operator, on integers or on floats.
pub open spec fn compare_name(op: Seq<char>, float: bool) -> Option<Seq<char>> {
    if op == "=="@ {
        Some(if float { "EQ.f"@ } else { "EQ.i"@ })
    } else if op == "!="@ {
        Some(if float { "NE.f"@ } else { "NE.i"@ })
    } else if op == "<"@ {
        Some(if float { "LT.f"@ } else { "LT.i"@ })
    } else if op == ">"@ {
        Some(if float { "GT.f"@ } else { "GT.i"@ })
    } else if op == "<="@ {
        Some(if float { "LE.f"@ } else { "LE.i"@ })
    } else if op == ">="@ {
        Some(if float { "GE.f"@ } else { "GE.i"@ })
    } else {
        None
    }
}

// ---------------------------------------------------------------------------------
// List elements
// ---------------------------------------------------------------------------------

/// The index of the first `c` in `s` at or after `i`, or -1.
pub open spec fn find_from(s: Seq<char>, c: char, i: int) -> int
    decreases s.len() - i,
{
    if i < 0 || i >= s.len() {
        -1
    } else if s[i] == c {
        i
    } else {
        find_from(s, c, i + 1)
    }
}

pub open spec fn all_digit_chars(s: Seq<char>) -> bool {
    s.len() > 0 && forall|i: int| 0 <= i < s.len() ==> is_digit(#[trigger] s[i])
}

/// A decimal integer numeral, with an optional leading `-`.
pub open spec fn int_numeral(s: Seq<char>) -> bool {
    all_digit_chars(s) || (s.len() > 1 && s[0] == '-' && all_digit_chars(s.drop_first()))
}

/// The list and index of an element target `name[k]` or `name[(k)]` (as the parser
/// names an element assignment), where `k` is an integer numeral.
pub open spec fn element_target(name: Seq<char>) -> Option<(Seq<char>, Seq<char>)> {
    let p = find_from(name, '[', 0);
    if p < 0 || name.len() < p + 2 || name.last() != ']' {
        None
    } else {
        let inner = name.subrange(p + 1, name.len() - 1);
        let idx = if inner.len() >= 2 && inner[0] == '(' && inner.last() == ')' {
            inner.subrange(1, inner.len() - 1)
        } else {
            inner
        };
        if int_numeral(idx) { Some((name.subrange(0, p), idx)) } else { None }
    }
}

/// The address of element `idx` of list `l`, left in register `b + 4` (registers
/// `b` to `b + 4` are used): the list's base plus four times the index.
pub open spec fn element_address(l: Seq<char>, idx: Seq<char>, b: int) -> Seq<Seq<char>> {
    seq![
        ins_val("LD"@, b, '@', l),
        ins_val("LD"@, b + 1, '#', idx),
        ins_val("LD"@, b + 2, '#', int_text(4)),
        ins3("MUL.i"@, b + 3, b + 1, b + 2),
        ins3("ADD.i"@, b + 4, b, b + 3),
    ]
}

/// Stores register `b` into element `idx` of list `l` (registers `b + 1` to `b + 4`
/// are used for the address).
pub open spec fn element_store(l: Seq<char>, idx: Seq<char>, b: int) -> Seq<Seq<char>> {
    seq![
        ins_val("LD"@, b + 1, '@', l),
        ins_val("LD"@, b + 2, '#', idx),
        ins_val("LD"@, b + 3, '#', int_text(4)),
        ins3("MUL.i"@, b + 4, b + 2, b + 3),
        ins3("ADD.i"@, b + 2, b + 1, b + 4),
        ins2("ST"@, b + 2, b),
    ]
}

/// Sets one element of list `name` to zero (registers `b` to `b + 5`).
pub open spec fn zero_element(k: int, b: int) -> Seq<Seq<char>> {
    seq![
        ins_val("LD"@, b + 2, '#', int_text(k)),
        ins_val("LD"@, b + 3, '#', int_text(4)),
        ins3("MUL.i"@, b + 4, b + 2, b + 3),
        ins3("ADD.i"@, b + 5, b + 1, b + 4),
        ins2("ST"@, b + 5, b),
    ]
}

/// A list assignment: the first two elements of list `name` are set to zero.
pub open spec fn list_init(name: Seq<char>, b: int) -> Seq<Seq<char>> {
    seq![ins_val("LD"@, b, '#', int_text(0)), ins_val("LD"@, b + 1, '@', name)]
        + zero_element(0, b) + zero_element(1, b)
}

// ---------------------------------------------------------------------------------
// Expressions
// ---------------------------------------------------------------------------------

/// `l op r` for an arithmetic `op`: integer with integer, integer with float (the
/// integer is converted), or integer with variable (the integer is loaded first).
/// Division of integers by zero cannot be compiled.
pub open spec fn arithmetic(l: ExprV, op: Seq<char>, r: ExprV, b: int) -> Seq<Seq<char>> {
    match (operand(l), operand(r)) {
        (Some(OperandV::Int(x)), Some(OperandV::Int(y))) =>
            if op == "/"@ && y == 0 {
                error_lines()
            } else {
                load(OperandV::Int(x), b) + load(OperandV::Int(y), b + 1)
                    + seq![ins3(arith_name(op, false).unwrap(), b + 2, b, b + 1), st_var("print"@, b + 2)]
            },
        (Some(OperandV::Int(x)), Some(OperandV::Float(y))) =>
            load(OperandV::Int(x), b) + to_float(true, b) + load(OperandV::Float(y), b + 1)
                + seq![ins3(arith_name(op, true).unwrap(), b + 2, b, b + 1), st_var("print"@, b + 2)],
        (Some(OperandV::Float(x)), Some(OperandV::Int(y))) =>
            load(OperandV::Float(x), b) + load(OperandV::Int(y), b + 1) + to_float(true, b + 1)
                + seq![ins3(arith_name(op, true).unwrap(), b + 2, b, b + 1), st_var("print"@, b + 2)],
        (Some(OperandV::Int(x)), Some(OperandV::Var(v))) =>
            load(OperandV::Int(x), b) + load(OperandV::Var(v), b + 1)
                + seq![ins3(arith_name(op, false).unwrap(), b + 2, b, b + 1), st_var("print"@, b + 2)],
        (Some(OperandV::Var(v)), Some(OperandV::Int(x))) =>
            load(OperandV::Int(x), b) + load(OperandV::Var(v), b + 1)
                + seq![ins3(arith_name(op, false).unwrap(), b + 2, b, b + 1), st_var("print"@, b + 2)],
        _ => error_lines(),
    }
}

/// `l op r` for a comparison `op`: both sides loaded in order; when either side is a
/// float the other is converted and the float comparison is used. `!=` on two
/// integer sides converts both and compares as floats.
pub open spec fn comparison(l: ExprV, op: Seq<char>, r: ExprV, b: int) -> Seq<Seq<char>> {
    match (operand(l), operand(r), compare_name(op, false)) {
        (Some(x), Some(y), Some(_)) => {
            let fl = is_float(x) || is_float(y);
            if op == "!="@ && !fl {
                load(x, b) + load(y, b + 1)
                    + seq![ins2("FL.i"@, b, b), ins2("FL.i"@, b + 1, b + 1), ins3("NE.f"@, b + 2, b, b + 1),
                        st_var("print"@, b + 2)]
            } else {
                load(x, b) + to_float(fl && !is_float(x), b) + load(y, b + 1) + to_float(fl && !is_float(y), b + 1)
                    + seq![ins3(compare_name(op, fl).unwrap(), b + 2, b, b + 1), st_var("print"@, b + 2)]
            }
        },
        _ => error_lines(),
    }
}

/// `name = value`: a number or variable is loaded and stored (into a list element
/// when `name` names one); a list sets its first two elements to zero; an element of
/// another list is copied through its address.
pub open spec fn assignment(name: Seq<char>, value: ExprV, b: int) -> Seq<Seq<char>> {
    match value {
        ExprV::List(_) => list_init(name, b),
        ExprV::ListAccess(l, index) => match *index {
            ExprV::Int(i) => match element_target(name) {
                Some((base, idx)) => element_address(l, int_text(i as int), b) + seq![ins2("LD"@, b + 5, b + 4)]
                    + element_address(base, idx, b) + seq![ins2("ST"@, b + 4, b + 5)],
                None => element_address(l, int_text(i as int), b) + seq![ins2("LD"@, b, b + 4), st_var(name, b)],
            },
            _ => error_lines(),
        },
        _ => match operand(value) {
            Some(o) => match element_target(name) {
                Some((base, idx)) => load(o, b) + element_store(base, idx, b),
                None => load(o, b) + seq![st_var(name, b)],
            },
            None => error_lines(),
        },
    }
}

/// The instructions for expression `e`, with registers numbered from `b`.
pub open spec fn instructions(e: ExprV, b: int) -> Seq<Seq<char>> {
    match e {
        ExprV::Int(n) => load(OperandV::Int(n as int), b) + seq![st_var("print"@, b)],
        ExprV::Float(r) => load(OperandV::Float(r), b) + seq![st_var("print"@, b)],
        ExprV::BinaryOp(l, op, r) => if arith_name(op, false) is Some {
            arithmetic(*l, op, *r, b)
        } else {
            error_lines()
        },
        ExprV::Assignment(name, value) => assignment(name, *value, b),
        ExprV::Boolean(l, op, r) => comparison(*l, op, *r, b),
        ExprV::ListAccess(l, index) => match *index {
            ExprV::Int(i) => element_address(l, int_text(i as int), b) + seq![st_var("print"@, b + 4)],
            _ => error_lines(),
        },
        _ => error_lines(),
    }
}

/// No line of `lines` is empty.
pub open spec fn no_empty_line(lines: Seq<Seq<char>>) -> bool {
    forall|k: int| 0 <= k < lines.len() ==> (#[trigger] lines[k]).len() > 0
}

/// `lines` hold no empty line and begin by loading register `b`.
pub open spec fn starts_with_load(lines: Seq<Seq<char>>, b: int) -> bool {
    &&& lines.len() > 0
    &&& no_empty_line(lines)
    &&& exists|sigil: char, t: Seq<char>| lines[0] == ins_val("LD"@, b, sigil, t)
}

proof fn lemma_ins_nonempty()
    ensures
        forall|n: Seq<char>, a: int, x: int| #[trigger] ins2(n, a, x).len() > 0,
        forall|n: Seq<char>, a: int, x: int, y: int| #[trigger] ins3(n, a, x, y).len() > 0,
        forall|n: Seq<char>, a: int, s: char, t: Seq<char>| #[trigger] ins_val(n, a, s, t).len() > 0,
        forall|v: Seq<char>, a: int| #[trigger] st_var(v, a).len() > 0,
{
    reveal_strlit(" ");
    reveal_strlit("ST @");
}

proof fn lemma_no_empty_concat(a: Seq<Seq<char>>, b: Seq<Seq<char>>)
    requires
        no_empty_line(a),
        no_empty_line(b),
    ensures
        no_empty_line(a + b),
{
    assert forall|k: int| 0 <= k < (a + b).len() implies (#[trigger] (a + b)[k]).len() > 0 by {
        if k < a.len() {
            assert((a + b)[k] == a[k]);
        } else {
            assert((a + b)[k] == b[k - a.len()]);
        }
    }
}

proof fn lemma_append(a: Seq<Seq<char>>, x: Seq<Seq<char>>, b: int)
    requires
        starts_with_load(a, b),
        no_empty_line(x),
    ensures
        starts_with_load(a + x, b),
{
    lemma_no_empty_concat(a, x);
    assert((a + x)[0] == a[0]);
}

proof fn lemma_load_shape(o: OperandV, k: int, convert: bool)
    ensures
        starts_with_load(load(o, k), k),
        no_empty_line(load(o, k)),
        no_empty_line(to_float(convert, k)),
{
    lemma_ins_nonempty();
    match o {
        OperandV::Int(n) => assert(load(o, k)[0] == ins_val("LD"@, k, '#', int_text(n))),
        OperandV::Float(r) => assert(load(o, k)[0] == ins_val("LD"@, k, '#', real_text(r))),
        OperandV::Var(v) => assert(load(o, k)[0] == ins_val("LD"@, k, '@', v)),
        OperandV::NegVar(v) => assert(load(o, k)[0] == ins_val("LD"@, k, '@', v)),
    }
}

proof fn lemma_list_shapes(l: Seq<char>, idx: Seq<char>, b: int, name: Seq<char>)
    ensures
        starts_with_load(element_address(l, idx, b), b),
        no_empty_line(element_address(l, idx, b)),
        no_empty_line(element_store(l, idx, b)),
        starts_with_load(list_init(name, b), b),
{
    lemma_ins_nonempty();
    assert(element_address(l, idx, b)[0] == ins_val("LD"@, b, '@', l));
    let head = seq![ins_val("LD"@, b, '#', int_text(0)), ins_val("LD"@, b + 1, '@', name)];
    assert(head[0] == ins_val("LD"@, b, '#', int_text(0)));
    assert(no_empty_line(zero_element(0, b)));
    assert(no_empty_line(zero_element(1, b)));
    lemma_append(head, zero_element(0, b), b);
    lemma_append(head + zero_element(0, b), zero_element(1, b), b);
}

/// The last two instructions of an operation: the operation into `b + 2`, then the
/// print of `b + 2`.
proof fn lemma_tail_shape(name: Seq<char>, b: int, x: int, y: int)
    ensures
        no_empty_line(seq![ins3(name, b + 2, x, y), st_var("print"@, b + 2)]),
{
    lemma_ins_nonempty();
}

proof fn lemma_two_operands(x: OperandV, y: OperandV, cx: bool, cy: bool, tail: Seq<Seq<char>>, b: int)
    requires
        no_empty_line(tail),
    ensures
        starts_with_load(load(x, b) + to_float(cx, b) + load(y, b + 1) + to_float(cy, b + 1) + tail, b),
        starts_with_load(load(x, b) + load(y, b + 1) + tail, b),
{
    lemma_load_shape(x, b, cx);
    lemma_load_shape(y, b + 1, cy);
    lemma_append(load(x, b), to_float(cx, b), b);
    lemma_append(load(x, b) + to_float(cx, b), load(y, b + 1), b);
    lemma_append(load(x, b) + to_float(cx, b) + load(y, b + 1), to_float(cy, b + 1), b);
    lemma_append(load(x, b) + to_float(cx, b) + load(y, b + 1) + to_float(cy, b + 1), tail, b);
    lemma_append(load(x, b), load(y, b + 1), b);
    lemma_append(load(x, b) + load(y, b + 1), tail, b);
}

proof fn lemma_arithmetic_shape(l: ExprV, op: Seq<char>, r: ExprV, b: int)
    ensures
        arithmetic(l, op, r, b) == error_lines() || starts_with_load(arithmetic(l, op, r, b), b),
{
    match (operand(l), operand(r)) {
        (Some(OperandV::Int(x)), Some(OperandV::Int(y))) => {
            lemma_tail_shape(arith_name(op, false).unwrap(), b, b, b + 1);
            lemma_two_operands(OperandV::Int(x), OperandV::Int(y), false, false,
                seq![ins3(arith_name(op, false).unwrap(), b + 2, b, b + 1), st_var("print"@, b + 2)], b);
        },
        (Some(OperandV::Int(x)), Some(OperandV::Float(y))) => {
            lemma_tail_shape(arith_name(op, true).unwrap(), b, b, b + 1);
            lemma_two_operands(OperandV::Int(x), OperandV::Float(y), true, false,
                seq![ins3(arith_name(op, true).unwrap(), b + 2, b, b + 1), st_var("print"@, b + 2)], b);
            assert(to_float(false, b + 1) =~= Seq::<Seq<char>>::empty());
            assert(load(OperandV::Int(x), b) + to_float(true, b) + load(OperandV::Float(y), b + 1)
                =~= load(OperandV::Int(x), b) + to_float(true, b) + load(OperandV::Float(y), b + 1) + to_float(false, b + 1));
        },
        (Some(OperandV::Float(x)), Some(OperandV::Int(y))) => {
            lemma_tail_shape(arith_name(op, true).unwrap(), b, b, b + 1);
            lemma_two_operands(OperandV::Float(x), OperandV::Int(y), false, true,
                seq![ins3(arith_name(op, true).unwrap(), b + 2, b, b + 1), st_var("print"@, b + 2)], b);
            assert(to_float(false, b) =~= Seq::<Seq<char>>::empty());
            assert(load(OperandV::Float(x), b) + load(OperandV::Int(y), b + 1)
                =~= load(OperandV::Float(x), b) + to_float(false, b) + load(OperandV::Int(y), b + 1));
        },
        (Some(OperandV::Int(x)), Some(OperandV::Var(v))) => {
            lemma_tail_shape(arith_name(op, false).unwrap(), b, b, b + 1);
            lemma_two_operands(OperandV::Int(x), OperandV::Var(v), false, false,
                seq![ins3(arith_name(op, false).unwrap(), b + 2, b, b + 1), st_var("print"@, b + 2)], b);
        },
        (Some(OperandV::Var(v)), Some(OperandV::Int(x))) => {
            lemma_tail_shape(arith_name(op, false).unwrap(), b, b, b + 1);
            lemma_two_operands(OperandV::Int(x), OperandV::Var(v), false, false,
                seq![ins3(arith_name(op, false).unwrap(), b + 2, b, b + 1), st_var("print"@, b + 2)], b);
        },
        _ => {},
    }
}

proof fn lemma_comparison_shape(l: ExprV, op: Seq<char>, r: ExprV, b: int)
    ensures
        comparison(l, op, r, b) == error_lines() || starts_with_load(comparison(l, op, r, b), b),
{
    match (operand(l), operand(r), compare_name(op, false)) {
        (Some(x), Some(y), Some(_)) => {
            let fl = is_float(x) || is_float(y);
            lemma_ins_nonempty();
            let t1 = seq![ins2("FL.i"@, b, b), ins2("FL.i"@, b + 1, b + 1), ins3("NE.f"@, b + 2, b, b + 1),
                st_var("print"@, b + 2)];
            assert(no_empty_line(t1));
            lemma_two_operands(x, y, false, false, t1, b);
            lemma_tail_shape(compare_name(op, fl).unwrap(), b, b, b + 1);
            lemma_two_operands(x, y, fl && !is_float(x), fl && !is_float(y),
                seq![ins3(compare_name(op, fl).unwrap(), b + 2, b, b + 1), st_var("print"@, b + 2)], b);
        },
        _ => {},
    }
}

proof fn lemma_assignment_shape(name: Seq<char>, value: ExprV, b: int)
    ensures
        assignment(name, value, b) == error_lines() || starts_with_load(assignment(name, value, b), b),
{
    lemma_ins_nonempty();
    match value {
        ExprV::List(_) => {
            lemma_list_shapes(name, name, b, name);
        },
        ExprV::ListAccess(l, index) => match *index {
            ExprV::Int(i) => {
                let ea = element_address(l, int_text(i as int), b);
                lemma_list_shapes(l, int_text(i as int), b, name);
                match element_target(name) {
                    Some((base, idx)) => {
                        lemma_list_shapes(base, idx, b, name);
                        let x1 = seq![ins2("LD"@, b + 5, b + 4)];
                        let x2 = seq![ins2("ST"@, b + 4, b + 5)];
                        assert(no_empty_line(x1));
                        assert(no_empty_line(x2));
                        lemma_append(ea, x1, b);
                        lemma_append(ea + x1, element_address(base, idx, b), b);
                        lemma_append(ea + x1 + element_address(base, idx, b), x2, b);
                    },
                    None => {
                        let x1 = seq![ins2("LD"@, b, b + 4), st_var(name, b)];
                        assert(no_empty_line(x1));
                        lemma_append(ea, x1, b);
                    },
                }
            },
            _ => {},
        },
        _ => match operand(value) {
            Some(o) => {
                lemma_load_shape(o, b, false);
                match element_target(name) {
                    Some((base, idx)) => {
                        lemma_list_shapes(base, idx, b, name);
                        lemma_append(load(o, b), element_store(base, idx, b), b);
                    },
                    None => {
                        assert(no_empty_line(seq![st_var(name, b)]));
                        lemma_append(load(o, b), seq![st_var(name, b)], b);
                    },
                }
            },
            None => {},
        },
    }
}

/// The instructions for an expression are never empty and hold no empty line; unless
/// the expression cannot be compiled (the single line `ERROR`), the first one loads
/// register `b`, the first register used. (`generate_assembly` numbers from 0, so its
/// first instruction then loads `R0`.)
pub proof fn law_instructions_shape(e: ExprV, b: int)
    ensures
        instructions(e, b).len() > 0,
        no_empty_line(instructions(e, b)),
        instructions(e, b) == error_lines() || starts_with_load(instructions(e, b), b),
{
    reveal_strlit("ERROR");
    lemma_ins_nonempty();
    assert(no_empty_line(error_lines()));
    match e {
        ExprV::Int(n) => {
            lemma_load_shape(OperandV::Int(n as int), b, false);
            lemma_append(load(OperandV::Int(n as int), b), seq![st_var("print"@, b)], b);
        },
        ExprV::Float(r) => {
            lemma_load_shape(OperandV::Float(r), b, false);
            lemma_append(load(OperandV::Float(r), b), seq![st_var("print"@, b)], b);
        },
        ExprV::BinaryOp(l, op, r) => {
            lemma_arithmetic_shape(*l, op, *r, b);
        },
        ExprV::Assignment(name, value) => {
            lemma_assignment_shape(name, *value, b);
        },
        ExprV::Boolean(l, op, r) => {
            lemma_comparison_shape(*l, op, *r, b);
        },
        ExprV::ListAccess(l, index) => match *index {
            ExprV::Int(i) => {
                lemma_list_shapes(l, int_text(i as int), b, l);
                lemma_append(element_address(l, int_text(i as int), b), seq![st_var("print"@, b + 4)], b);
            },
            _ => {},
        },
        _ => {},
    }
}

/// How many registers the instructions for `e` use, from the first one on, when `e`
/// can be compiled.
pub open spec fn regs_count(e: ExprV) -> int {
    match e {
        ExprV::Int(_) => 1,
        ExprV::Float(_) => 1,
        ExprV::BinaryOp(_, _, _) => 3,
        ExprV::Boolean(_, _, _) => 3,
        ExprV::ListAccess(_, _) => 5,
        ExprV::Assignment(name, value) => match *value {
            ExprV::List(_) => 6,
            ExprV::ListAccess(_, _) => if element_target(name) is Some { 6 } else { 5 },
            _ => if element_target(name) is Some { 5 } else { 1 },
        },
        _ => 0,
    }
}

/// How many registers the instructions for `e`, numbered from `b`, take: none when `e`
/// cannot be compiled.
pub open spec fn regs_used(e: ExprV, b: int) -> int {
    if instructions(e, b) == error_lines() { 0 } else { regs_count(e) }
}

// ---------------------------------------------------------------------------------
// Which registers the instructions name
// ---------------------------------------------------------------------------------

/// `s` holds no whitespace.
pub open spec fn plain(s: Seq<char>) -> bool {
    forall|i: int| 0 <= i < s.len() ==> !crate::vm::is_space(#[trigger] s[i])
}

/// The lines name register `j`: one of their whitespace-separated words is `Rj`.
pub open spec fn names_reg(lines: Seq<Seq<char>>, j: int) -> bool {
    exists|k: int, w: int|
        0 <= k < lines.len() && 0 <= w < crate::vm::words(lines[k]).len() && #[trigger] crate::vm::words(lines[k])[w] == reg(j)
}

/// Every register that `line` names lies in `lo..hi`.
pub open spec fn line_regs_within(line: Seq<char>, lo: int, hi: int) -> bool {
    forall|w: int, j: int| #![trigger crate::vm::words(line)[w], reg(j)]
        0 <= w < crate::vm::words(line).len() && crate::vm::words(line)[w] == reg(j) ==> lo <= j < hi
}

/// Every register that `lines` name lies in `lo..hi`.
pub open spec fn regs_within(lines: Seq<Seq<char>>, lo: int, hi: int) -> bool {
    forall|k: int| 0 <= k < lines.len() ==> line_regs_within(#[trigger] lines[k], lo, hi)
}

/// The names in `e` (of variables, lists and assignment targets) hold no whitespace.
pub open spec fn names_plain(e: ExprV) -> bool
    decreases e,
{
    match e {
        ExprV::Variable(v) => plain(v),
        ExprV::BinaryOp(l, _, r) => names_plain(*l) && names_plain(*r),
        ExprV::Boolean(l, _, r) => names_plain(*l) && names_plain(*r),
        ExprV::Assignment(n, v) => plain(n) && names_plain(*v),
        ExprV::ListAccess(n, i) => plain(n) && names_plain(*i),
        ExprV::UnaryOp(_, i) => names_plain(*i),
        _ => true,
    }
}

proof fn lemma_nat_text_digits(n: nat)
    ensures
        nat_text_plain(n),
    decreases n,
{
    if n >= 10 {
        lemma_nat_text_digits(n / 10);
        let t = nat_text(n);
        let p = nat_text(n / 10);
        assert forall|i: int| 0 <= i < t.len() implies is_digit(#[trigger] t[i]) by {
            if i < p.len() { assert(t[i] == p[i]); }
        }
    }
}

spec fn nat_text_plain(n: nat) -> bool {
    &&& nat_text(n).len() > 0
    &&& forall|i: int| 0 <= i < nat_text(n).len() ==> is_digit(#[trigger] nat_text(n)[i])
}

/// A numeral is a word.
proof fn lemma_int_text_word(i: int)
    ensures
        crate::vm::is_word(int_text(i)),
        int_text(i)[0] != 'R',
{
    let t = int_text(i);
    if i < 0 {
        lemma_nat_text_digits((-i) as nat);
        assert forall|k: int| 0 <= k < t.len() implies !crate::vm::is_space(#[trigger] t[k]) by {
            if k > 0 { assert(t[k] == nat_text((-i) as nat)[k - 1]); }
        }
    } else {
        lemma_nat_text_digits(i as nat);
        assert forall|k: int| 0 <= k < t.len() implies !crate::vm::is_space(#[trigger] t[k]) by {
            assert(is_digit(t[k]));
        }
    }
}

/// A register's name is a word starting with `R`.
proof fn lemma_reg_word(k: int)
    ensures
        crate::vm::is_word(reg(k)),
        reg(k)[0] == 'R',
{
    reveal_strlit("R");
    lemma_int_text_word(k);
    let r = reg(k);
    assert forall|j: int| 0 <= j < r.len() implies !crate::vm::is_space(#[trigger] r[j]) by {
        if j > 0 { assert(r[j] == int_text(k)[j - 1]); }
    }
}

/// Two registers with the same name are the same register.
proof fn lemma_reg_same(a: int, j: int)
    requires
        reg(a) == reg(j),
    ensures
        a == j,
{
    reveal_strlit("R");
    assert(int_text(a) =~= reg(a).drop_first());
    assert(int_text(j) =~= reg(j).drop_first());
    if a >= 0 && j >= 0 {
        crate::pipeline::lemma_nat_text(a as nat);
        crate::pipeline::lemma_nat_text(j as nat);
    } else if a < 0 && j < 0 {
        assert(nat_text((-a) as nat) =~= int_text(a).drop_first());
        assert(nat_text((-j) as nat) =~= int_text(j).drop_first());
        crate::pipeline::lemma_nat_text((-a) as nat);
        crate::pipeline::lemma_nat_text((-j) as nat);
    } else if a < 0 {
        lemma_nat_text_digits(j as nat);
        assert(is_digit(int_text(j)[0]));
    } else {
        lemma_nat_text_digits(a as nat);
        assert(is_digit(int_text(a)[0]));
    }
}

/// An instruction's name: a word that does not start with `R`.
spec fn op_name(n: Seq<char>) -> bool {
    crate::vm::is_word(n) && n[0] != 'R'
}

proof fn lemma_names_ok()
    ensures
        op_name("LD"@), op_name("ST"@), op_name("FL.i"@), op_name("NEG.i"@), op_name("NE.f"@),
        forall|op: Seq<char>, f: bool| #[trigger] arith_name(op, f) is Some ==> op_name(arith_name(op, f).unwrap()),
        forall|op: Seq<char>, f: bool| #[trigger] compare_name(op, f) is Some ==> op_name(compare_name(op, f).unwrap()),
{
    reveal_strlit("LD"); reveal_strlit("ST"); reveal_strlit("FL.i"); reveal_strlit("NEG.i");
    reveal_strlit("ADD.i"); reveal_strlit("SUB.i"); reveal_strlit("MUL.i"); reveal_strlit("DIV.i");
    reveal_strlit("ADD.f"); reveal_strlit("SUB.f"); reveal_strlit("MUL.f"); reveal_strlit("DIV.f");
    reveal_strlit("EQ.i"); reveal_strlit("NE.i"); reveal_strlit("LT.i"); reveal_strlit("GT.i");
    reveal_strlit("LE.i"); reveal_strlit("GE.i"); reveal_strlit("EQ.f"); reveal_strlit("NE.f");
    reveal_strlit("LT.f"); reveal_strlit("GT.f"); reveal_strlit("LE.f"); reveal_strlit("GE.f");
}

proof fn lemma_not_reg(x: Seq<char>, j: int)
    requires
        x.len() > 0,
        x[0] != 'R',
    ensures
        x != reg(j),
{
    lemma_reg_word(j);
}

proof fn lemma_ins2_within(n: Seq<char>, a: int, b: int, lo: int, hi: int)
    requires
        op_name(n),
        lo <= a < hi,
        lo <= b < hi,
    ensures
        line_regs_within(ins2(n, a, b), lo, hi),
{
    reveal_strlit(" ");
    lemma_reg_word(a);
    lemma_reg_word(b);
    assert(ins2(n, a, b) =~= n + seq![' '] + reg(a) + seq![' '] + reg(b));
    crate::vm::lemma_words_three(n, reg(a), reg(b));
    let ws = crate::vm::words(ins2(n, a, b));
    assert forall|w: int, j: int| 0 <= w < ws.len() && ws[w] == reg(j) implies lo <= j < hi by {
        if w == 0 { lemma_not_reg(n, j); } else if w == 1 { lemma_reg_same(a, j); } else { lemma_reg_same(b, j); }
    }
}

proof fn lemma_ins3_within(n: Seq<char>, a: int, b: int, c: int, lo: int, hi: int)
    requires
        op_name(n),
        lo <= a < hi,
        lo <= b < hi,
        lo <= c < hi,
    ensures
        line_regs_within(ins3(n, a, b, c), lo, hi),
{
    reveal_strlit(" ");
    lemma_reg_word(a);
    lemma_reg_word(b);
    lemma_reg_word(c);
    assert(ins3(n, a, b, c) =~= n + seq![' '] + reg(a) + seq![' '] + reg(b) + seq![' '] + reg(c));
    crate::vm::lemma_words_four(n, reg(a), reg(b), reg(c));
    let ws = crate::vm::words(ins3(n, a, b, c));
    assert forall|w: int, j: int| 0 <= w < ws.len() && ws[w] == reg(j) implies lo <= j < hi by {
        if w == 0 { lemma_not_reg(n, j); } else if w == 1 { lemma_reg_same(a, j); }
        else if w == 2 { lemma_reg_same(b, j); } else { lemma_reg_same(c, j); }
    }
}

proof fn lemma_ins_val_within(n: Seq<char>, a: int, sigil: char, t: Seq<char>, lo: int, hi: int)
    requires
        op_name(n),
        lo <= a < hi,
        sigil == '#' || sigil == '@',
        plain(t),
    ensures
        line_regs_within(ins_val(n, a, sigil, t), lo, hi),
{
    reveal_strlit(" ");
    lemma_reg_word(a);
    let x = seq![sigil] + t;
    assert(crate::vm::is_word(x)) by {
        assert forall|k: int| 0 <= k < x.len() implies !crate::vm::is_space(#[trigger] x[k]) by {
            if k > 0 { assert(x[k] == t[k - 1]); }
        }
    }
    assert(ins_val(n, a, sigil, t) =~= n + seq![' '] + reg(a) + seq![' '] + x);
    crate::vm::lemma_words_three(n, reg(a), x);
    let ws = crate::vm::words(ins_val(n, a, sigil, t));
    assert forall|w: int, j: int| 0 <= w < ws.len() && ws[w] == reg(j) implies lo <= j < hi by {
        if w == 0 { lemma_not_reg(n, j); } else if w == 1 { lemma_reg_same(a, j); } else { lemma_not_reg(x, j); }
    }
}

proof fn lemma_st_var_within(v: Seq<char>, k: int, lo: int, hi: int)
    requires
        plain(v),
        lo <= k < hi,
    ensures
        line_regs_within(st_var(v, k), lo, hi),
{
    reveal_strlit(" ");
    reveal_strlit("ST @");
    lemma_names_ok();
    reveal_strlit("ST");
    lemma_reg_word(k);
    let x = seq!['@'] + v;
    assert(crate::vm::is_word(x)) by {
        assert forall|i: int| 0 <= i < x.len() implies !crate::vm::is_space(#[trigger] x[i]) by {
            if i > 0 { assert(x[i] == v[i - 1]); }
        }
    }
    assert(st_var(v, k) =~= "ST"@ + seq![' '] + x + seq![' '] + reg(k));
    crate::vm::lemma_words_three("ST"@, x, reg(k));
    let ws = crate::vm::words(st_var(v, k));
    assert forall|w: int, j: int| 0 <= w < ws.len() && ws[w] == reg(j) implies lo <= j < hi by {
        if w == 0 { lemma_not_reg("ST"@, j); } else if w == 1 { lemma_not_reg(x, j); } else { lemma_reg_same(k, j); }
    }
}

proof fn lemma_error_within(lo: int, hi: int)
    ensures
        regs_within(error_lines(), lo, hi),
{
    reveal_strlit("ERROR");
    let e = "ERROR"@;
    assert(crate::vm::is_word(e));
    crate::vm::lemma_words_one(e);
    assert forall|w: int, j: int| 0 <= w < crate::vm::words(e).len() && crate::vm::words(e)[w] == reg(j) implies lo <= j < hi by {
        lemma_not_reg(e, j);
    }
    assert(line_regs_within(error_lines()[0], lo, hi));
}

proof fn lemma_within_concat(a: Seq<Seq<char>>, b: Seq<Seq<char>>, lo: int, hi: int)
    requires
        regs_within(a, lo, hi),
        regs_within(b, lo, hi),
    ensures
        regs_within(a + b, lo, hi),
{
    assert forall|k: int| 0 <= k < (a + b).len() implies line_regs_within(#[trigger] (a + b)[k], lo, hi) by {
        if k < a.len() { assert((a + b)[k] == a[k]); } else { assert((a + b)[k] == b[k - a.len()]); }
    }
}

/// Every register named lies in the range: what `names_reg` says of lines within it.
proof fn lemma_names_within(lines: Seq<Seq<char>>, lo: int, hi: int, j: int)
    requires
        regs_within(lines, lo, hi),
        names_reg(lines, j),
    ensures
        lo <= j < hi,
{
    let (k, w) = choose|k: int, w: int|
        0 <= k < lines.len() && 0 <= w < crate::vm::words(lines[k]).len() && #[trigger] crate::vm::words(lines[k])[w] == reg(j);
    assert(line_regs_within(lines[k], lo, hi));
}

spec fn operand_plain(o: OperandV) -> bool {
    match o {
        OperandV::Var(v) => plain(v),
        OperandV::NegVar(v) => plain(v),
        _ => true,
    }
}

proof fn lemma_operand_plain(e: ExprV)
    requires
        names_plain(e),
    ensures
        operand(e) matches Some(o) ==> operand_plain(o),
{
    match e {
        ExprV::UnaryOp(op, inner) => {
            assert(names_plain(*inner));
        },
        _ => {},
    }
}

proof fn lemma_real_text_plain(r: RealV)
    ensures
        plain(real_text(r)),
{
    let t = real_text(r);
    let w = if r.whole.len() == 0 { seq!['0'] } else { crate::number::digits_text(r.whole) };
    let f = if r.frac.len() == 0 { Seq::<char>::empty() } else { seq!['.'] + crate::number::digits_text(r.frac) };
    let s = if r.negative { seq!['-'] } else { Seq::<char>::empty() };
    assert(t == s + w + f);
    assert forall|i: int| 0 <= i < t.len() implies !crate::vm::is_space(#[trigger] t[i]) by {
        if i < s.len() {
            assert(t[i] == s[i]);
        } else if i < s.len() + w.len() {
            assert(t[i] == w[i - s.len()]);
        } else {
            assert(t[i] == f[i - s.len() - w.len()]);
            if i - s.len() - w.len() > 0 {
                assert(f[i - s.len() - w.len()] == crate::number::digits_text(r.frac)[i - s.len() - w.len() - 1]);
            }
        }
    }
}

proof fn lemma_int_text_plain(i: int)
    ensures
        plain(int_text(i)),
{
    lemma_int_text_word(i);
}

proof fn lemma_widen(x: Seq<Seq<char>>, lo: int, hi: int, lo2: int, hi2: int)
    requires
        regs_within(x, lo, hi),
        lo2 <= lo,
        hi <= hi2,
    ensures
        regs_within(x, lo2, hi2),
{
    assert forall|k: int| 0 <= k < x.len() implies line_regs_within(#[trigger] x[k], lo2, hi2) by {
        assert(line_regs_within(x[k], lo, hi));
    }
}

proof fn lemma_load_within(o: OperandV, k: int, c: bool)
    requires
        operand_plain(o),
    ensures
        regs_within(load(o, k), k, k + 1),
        regs_within(to_float(c, k), k, k + 1),
{
    lemma_names_ok();
    lemma_ins2_within("FL.i"@, k, k, k, k + 1);
    match o {
        OperandV::Int(n) => {
            lemma_int_text_plain(n);
            lemma_ins_val_within("LD"@, k, '#', int_text(n), k, k + 1);
        },
        OperandV::Float(r) => {
            lemma_real_text_plain(r);
            lemma_ins_val_within("LD"@, k, '#', real_text(r), k, k + 1);
        },
        OperandV::Var(v) => {
            lemma_ins_val_within("LD"@, k, '@', v, k, k + 1);
        },
        OperandV::NegVar(v) => {
            lemma_ins_val_within("LD"@, k, '@', v, k, k + 1);
            lemma_ins2_within("NEG.i"@, k, k, k, k + 1);
        },
    }
}

proof fn lemma_list_within(l: Seq<char>, idx: Seq<char>, b: int, name: Seq<char>, i: int)
    requires
        plain(l),
        plain(idx),
        plain(name),
    ensures
        regs_within(element_address(l, idx, b), b, b + 5),
        regs_within(element_store(l, idx, b), b, b + 5),
        regs_within(zero_element(i, b), b, b + 6),
        regs_within(list_init(name, b), b, b + 6),
{
    lemma_names_ok();
    reveal_strlit("MUL.i");
    reveal_strlit("ADD.i");
    assert(op_name("MUL.i"@) && op_name("ADD.i"@));
    lemma_int_text_plain(4);
    lemma_int_text_plain(0);
    lemma_int_text_plain(i);
    lemma_ins_val_within("LD"@, b, '@', l, b, b + 5);
    lemma_ins_val_within("LD"@, b + 1, '#', idx, b, b + 5);
    lemma_ins_val_within("LD"@, b + 2, '#', int_text(4), b, b + 5);
    lemma_ins3_within("MUL.i"@, b + 3, b + 1, b + 2, b, b + 5);
    lemma_ins3_within("ADD.i"@, b + 4, b, b + 3, b, b + 5);
    lemma_ins_val_within("LD"@, b + 1, '@', l, b, b + 5);
    lemma_ins_val_within("LD"@, b + 2, '#', idx, b, b + 5);
    lemma_ins_val_within("LD"@, b + 3, '#', int_text(4), b, b + 5);
    lemma_ins3_within("MUL.i"@, b + 4, b + 2, b + 3, b, b + 5);
    lemma_ins3_within("ADD.i"@, b + 2, b + 1, b + 4, b, b + 5);
    lemma_ins2_within("ST"@, b + 2, b, b, b + 5);
    lemma_ins_val_within("LD"@, b + 2, '#', int_text(i), b, b + 6);
    lemma_ins_val_within("LD"@, b + 3, '#', int_text(4), b, b + 6);
    lemma_ins3_within("MUL.i"@, b + 4, b + 2, b + 3, b, b + 6);
    lemma_ins3_within("ADD.i"@, b + 5, b + 1, b + 4, b, b + 6);
    lemma_ins2_within("ST"@, b + 5, b, b, b + 6);
    lemma_ins_val_within("LD"@, b, '#', int_text(0), b, b + 6);
    lemma_ins_val_within("LD"@, b + 1, '@', name, b, b + 6);
    lemma_ins_val_within("LD"@, b + 2, '#', int_text(0), b, b + 6);
    lemma_ins_val_within("LD"@, b + 2, '#', int_text(1), b, b + 6);
    lemma_int_text_plain(1);
    let zi = zero_element(i, b);
    assert(regs_within(zi, b, b + 6)) by {
        assert forall|k: int| 0 <= k < zi.len() implies line_regs_within(#[trigger] zi[k], b, b + 6) by {}
    }
    let ea = element_address(l, idx, b);
    assert(regs_within(ea, b, b + 5)) by {
        assert forall|k: int| 0 <= k < ea.len() implies line_regs_within(#[trigger] ea[k], b, b + 5) by {}
    }
    let es = element_store(l, idx, b);
    assert(regs_within(es, b, b + 5)) by {
        assert forall|k: int| 0 <= k < es.len() implies line_regs_within(#[trigger] es[k], b, b + 5) by {}
    }
    let head = seq![ins_val("LD"@, b, '#', int_text(0)), ins_val("LD"@, b + 1, '@', name)];
    assert(regs_within(head, b, b + 6)) by {
        assert forall|k: int| 0 <= k < head.len() implies line_regs_within(#[trigger] head[k], b, b + 6) by {}
    }
    let z0 = zero_element(0, b);
    let z1 = zero_element(1, b);
    assert(regs_within(z0, b, b + 6)) by {
        assert forall|k: int| 0 <= k < z0.len() implies line_regs_within(#[trigger] z0[k], b, b + 6) by {}
    }
    assert(regs_within(z1, b, b + 6)) by {
        assert forall|k: int| 0 <= k < z1.len() implies line_regs_within(#[trigger] z1[k], b, b + 6) by {}
    }
    lemma_within_concat(head, z0, b, b + 6);
    lemma_within_concat(head + z0, z1, b, b + 6);
}

proof fn lemma_target_plain(name: Seq<char>)
    requires
        plain(name),
    ensures
        element_target(name) matches Some((base, idx)) ==> plain(base) && plain(idx),
{
    let p = find_from(name, '[', 0);
    if element_target(name) is Some {
        let base = name.subrange(0, p);
        let inner = name.subrange(p + 1, name.len() - 1);
        let idx = if inner.len() >= 2 && inner[0] == '(' && inner.last() == ')' {
            inner.subrange(1, inner.len() - 1)
        } else {
            inner
        };
        assert forall|i: int| 0 <= i < base.len() implies !crate::vm::is_space(#[trigger] base[i]) by {
            assert(base[i] == name[i]);
        }
        assert forall|i: int| 0 <= i < inner.len() implies !crate::vm::is_space(#[trigger] inner[i]) by {
            assert(inner[i] == name[p + 1 + i]);
        }
        assert forall|i: int| 0 <= i < idx.len() implies !crate::vm::is_space(#[trigger] idx[i]) by {
            if inner.len() >= 2 && inner[0] == '(' && inner.last() == ')' {
                assert(idx[i] == inner[i + 1]);
            }
        }
    }
}

proof fn lemma_tail_within(name: Seq<char>, b: int)
    requires
        op_name(name),
    ensures
        regs_within(seq![ins3(name, b + 2, b, b + 1), st_var("print"@, b + 2)], b, b + 3),
{
    reveal_strlit("print");
    assert(plain("print"@));
    lemma_ins3_within(name, b + 2, b, b + 1, b, b + 3);
    lemma_st_var_within("print"@, b + 2, b, b + 3);
    let t = seq![ins3(name, b + 2, b, b + 1), st_var("print"@, b + 2)];
    assert forall|k: int| 0 <= k < t.len() implies line_regs_within(#[trigger] t[k], b, b + 3) by {}
}

proof fn lemma_two_within(x: OperandV, y: OperandV, cx: bool, cy: bool, tail: Seq<Seq<char>>, b: int)
    requires
        operand_plain(x),
        operand_plain(y),
        regs_within(tail, b, b + 3),
    ensures
        regs_within(load(x, b) + to_float(cx, b) + load(y, b + 1) + to_float(cy, b + 1) + tail, b, b + 3),
        regs_within(load(x, b) + load(y, b + 1) + tail, b, b + 3),
{
    lemma_load_within(x, b, cx);
    lemma_load_within(y, b + 1, cy);
    lemma_widen(load(x, b), b, b + 1, b, b + 3);
    lemma_widen(to_float(cx, b), b, b + 1, b, b + 3);
    lemma_widen(load(y, b + 1), b + 1, b + 2, b, b + 3);
    lemma_widen(to_float(cy, b + 1), b + 1, b + 2, b, b + 3);
    lemma_within_concat(load(x, b), to_float(cx, b), b, b + 3);
    lemma_within_concat(load(x, b) + to_float(cx, b), load(y, b + 1), b, b + 3);
    lemma_within_concat(load(x, b) + to_float(cx, b) + load(y, b + 1), to_float(cy, b + 1), b, b + 3);
    lemma_within_concat(load(x, b) + to_float(cx, b) + load(y, b + 1) + to_float(cy, b + 1), tail, b, b + 3);
    lemma_within_concat(load(x, b), load(y, b + 1), b, b + 3);
    lemma_within_concat(load(x, b) + load(y, b + 1), tail, b, b + 3);
}

proof fn lemma_arithmetic_within(l: ExprV, op: Seq<char>, r: ExprV, b: int)
    requires
        names_plain(l),
        names_plain(r),
        arith_name(op, false) is Some,
        arithmetic(l, op, r, b) != error_lines(),
    ensures
        regs_within(arithmetic(l, op, r, b), b, b + 3),
{
    lemma_names_ok();
    lemma_operand_plain(l);
    lemma_operand_plain(r);
    assert(arith_name(op, true) is Some);
    lemma_tail_within(arith_name(op, false).unwrap(), b);
    lemma_tail_within(arith_name(op, true).unwrap(), b);
    let ti = seq![ins3(arith_name(op, false).unwrap(), b + 2, b, b + 1), st_var("print"@, b + 2)];
    let tf = seq![ins3(arith_name(op, true).unwrap(), b + 2, b, b + 1), st_var("print"@, b + 2)];
    match (operand(l), operand(r)) {
        (Some(OperandV::Int(x)), Some(OperandV::Int(y))) => {
            lemma_two_within(OperandV::Int(x), OperandV::Int(y), false, false, ti, b);
        },
        (Some(OperandV::Int(x)), Some(OperandV::Float(y))) => {
            lemma_two_within(OperandV::Int(x), OperandV::Float(y), true, false, tf, b);
            assert(to_float(false, b + 1) =~= Seq::<Seq<char>>::empty());
            assert(load(OperandV::Int(x), b) + to_float(true, b) + load(OperandV::Float(y), b + 1)
                =~= load(OperandV::Int(x), b) + to_float(true, b) + load(OperandV::Float(y), b + 1) + to_float(false, b + 1));
        },
        (Some(OperandV::Float(x)), Some(OperandV::Int(y))) => {
            lemma_two_within(OperandV::Float(x), OperandV::Int(y), false, true, tf, b);
            assert(to_float(false, b) =~= Seq::<Seq<char>>::empty());
            assert(load(OperandV::Float(x), b) + load(OperandV::Int(y), b + 1)
                =~= load(OperandV::Float(x), b) + to_float(false, b) + load(OperandV::Int(y), b + 1));
        },
        (Some(OperandV::Int(x)), Some(OperandV::Var(v))) => {
            lemma_two_within(OperandV::Int(x), OperandV::Var(v), false, false, ti, b);
        },
        (Some(OperandV::Var(v)), Some(OperandV::Int(x))) => {
            lemma_two_within(OperandV::Int(x), OperandV::Var(v), false, false, ti, b);
        },
        _ => {},
    }
}

proof fn lemma_comparison_within(l: ExprV, op: Seq<char>, r: ExprV, b: int)
    requires
        names_plain(l),
        names_plain(r),
        comparison(l, op, r, b) != error_lines(),
    ensures
        regs_within(comparison(l, op, r, b), b, b + 3),
{
    lemma_names_ok();
    lemma_operand_plain(l);
    lemma_operand_plain(r);
    match (operand(l), operand(r), compare_name(op, false)) {
        (Some(x), Some(y), Some(_)) => {
            let fl = is_float(x) || is_float(y);
            reveal_strlit("print");
            assert(plain("print"@));
            assert(compare_name(op, fl) is Some);
            lemma_ins2_within("FL.i"@, b, b, b, b + 3);
            lemma_ins2_within("FL.i"@, b + 1, b + 1, b, b + 3);
            lemma_ins3_within("NE.f"@, b + 2, b, b + 1, b, b + 3);
            lemma_st_var_within("print"@, b + 2, b, b + 3);
            let t1 = seq![ins2("FL.i"@, b, b), ins2("FL.i"@, b + 1, b + 1), ins3("NE.f"@, b + 2, b, b + 1),
                st_var("print"@, b + 2)];
            assert(regs_within(t1, b, b + 3)) by {
                assert forall|k: int| 0 <= k < t1.len() implies line_regs_within(#[trigger] t1[k], b, b + 3) by {}
            }
            lemma_two_within(x, y, false, false, t1, b);
            lemma_tail_within(compare_name(op, fl).unwrap(), b);
            lemma_two_within(x, y, fl && !is_float(x), fl && !is_float(y),
                seq![ins3(compare_name(op, fl).unwrap(), b + 2, b, b + 1), st_var("print"@, b + 2)], b);
        },
        _ => {},
    }
}

proof fn lemma_assignment_within(name: Seq<char>, value: ExprV, b: int)
    requires
        plain(name),
        names_plain(value),
        assignment(name, value, b) != error_lines(),
    ensures
        regs_within(assignment(name, value, b), b, b + regs_count(ExprV::Assignment(name, Box::new(value)))),
{
    lemma_names_ok();
    lemma_target_plain(name);
    match value {
        ExprV::List(_) => {
            lemma_list_within(name, name, b, name, 0);
        },
        ExprV::ListAccess(l, index) => {
            match *index {
                ExprV::Int(i) => {
                    lemma_int_text_plain(i as int);
                    let it = int_text(i as int);
                    lemma_list_within(l, it, b, name, 0);
                    let ea = element_address(l, it, b);
                    match element_target(name) {
                        Some((base, idx)) => {
                            lemma_list_within(base, idx, b, name, 0);
                            lemma_ins2_within("LD"@, b + 5, b + 4, b, b + 6);
                            lemma_ins2_within("ST"@, b + 4, b + 5, b, b + 6);
                            let x1 = seq![ins2("LD"@, b + 5, b + 4)];
                            let x2 = seq![ins2("ST"@, b + 4, b + 5)];
                            assert(regs_within(x1, b, b + 6)) by {
                                assert forall|k: int| 0 <= k < x1.len() implies line_regs_within(#[trigger] x1[k], b, b + 6) by {}
                            }
                            assert(regs_within(x2, b, b + 6)) by {
                                assert forall|k: int| 0 <= k < x2.len() implies line_regs_within(#[trigger] x2[k], b, b + 6) by {}
                            }
                            lemma_widen(ea, b, b + 5, b, b + 6);
                            lemma_widen(element_address(base, idx, b), b, b + 5, b, b + 6);
                            lemma_within_concat(ea, x1, b, b + 6);
                            lemma_within_concat(ea + x1, element_address(base, idx, b), b, b + 6);
                            lemma_within_concat(ea + x1 + element_address(base, idx, b), x2, b, b + 6);
                        },
                        None => {
                            lemma_ins2_within("LD"@, b, b + 4, b, b + 5);
                            lemma_st_var_within(name, b, b, b + 5);
                            let x1 = seq![ins2("LD"@, b, b + 4), st_var(name, b)];
                            assert(regs_within(x1, b, b + 5)) by {
                                assert forall|k: int| 0 <= k < x1.len() implies line_regs_within(#[trigger] x1[k], b, b + 5) by {}
                            }
                            lemma_within_concat(ea, x1, b, b + 5);
                        },
                    }
                },
                _ => {},
            }
        },
        _ => {
            lemma_operand_plain(value);
            match operand(value) {
                Some(o) => {
                    lemma_load_within(o, b, false);
                    match element_target(name) {
                        Some((base, idx)) => {
                            lemma_list_within(base, idx, b, name, 0);
                            lemma_widen(load(o, b), b, b + 1, b, b + 5);
                            lemma_within_concat(load(o, b), element_store(base, idx, b), b, b + 5);
                        },
                        None => {
                            lemma_st_var_within(name, b, b, b + 1);
                            let x1 = seq![st_var(name, b)];
                            assert(regs_within(x1, b, b + 1)) by {
                                assert forall|k: int| 0 <= k < x1.len() implies line_regs_within(#[trigger] x1[k], b, b + 1) by {}
                            }
                            lemma_within_concat(load(o, b), x1, b, b + 1);
                        },
                    }
                },
                None => {},
            }
        },
    }
}

/// The instructions for an expression whose names hold no whitespace name only the
/// registers they take: `Rb` up to, not including, `R(b + regs_used(e, b))`.
pub proof fn law_registers_in_range(e: ExprV, b: int)
    requires
        names_plain(e),
    ensures
        forall|j: int| names_reg(instructions(e, b), j) ==> b <= j < b + regs_used(e, b),
{
    lemma_registers_within(e, b);
    assert forall|j: int| names_reg(instructions(e, b), j) implies b <= j < b + regs_used(e, b) by {
        lemma_names_within(instructions(e, b), b, b + regs_used(e, b), j);
    }
}

proof fn lemma_registers_within(e: ExprV, b: int)
    requires
        names_plain(e),
    ensures
        regs_within(instructions(e, b), b, b + regs_used(e, b)),
{
    lemma_names_ok();
    reveal_strlit("print");
    assert(plain("print"@));
    if instructions(e, b) == error_lines() {
        lemma_error_within(b, b);
    } else {
        match e {
            ExprV::Int(n) => {
                lemma_load_within(OperandV::Int(n as int), b, false);
                lemma_st_var_within("print"@, b, b, b + 1);
            },
            ExprV::Float(r) => {
                lemma_load_within(OperandV::Float(r), b, false);
                lemma_st_var_within("print"@, b, b, b + 1);
            },
            ExprV::BinaryOp(l, op, r) => {
                lemma_arithmetic_within(*l, op, *r, b);
            },
            ExprV::Assignment(name, value) => {
                lemma_assignment_within(name, *value, b);
            },
            ExprV::Boolean(l, op, r) => {
                lemma_comparison_within(*l, op, *r, b);
            },
            ExprV::ListAccess(l, index) => {
                match *index {
                    ExprV::Int(i) => {
                        lemma_int_text_plain(i as int);
                        lemma_list_within(l, int_text(i as int), b, l, 0);
                        lemma_st_var_within("print"@, b + 4, b, b + 5);
                    },
                    _ => {},
                }
            },
            _ => {},
        }
    }
}

// ---------------------------------------------------------------------------------
// Registers
// ---------------------------------------------------------------------------------

/// Hands out register numbers in order.
pub struct RegisterAllocator {
    next_reg: i64,
}

impl RegisterAllocator {
    /// The number the next request gets.
    pub closed spec fn next(&self) -> int {
        self.next_reg as int
    }

    /// An allocator that starts at register 0.
    pub fn new() -> (r: RegisterAllocator)
        ensures
            r.next() == 0,
    {
        RegisterAllocator { next_reg: 0 }
    }

    /// The next register number; later requests get the following ones.
    pub fn get_next_reg(&mut self) -> (reg: i64)
        requires
            old(self).next() < i64::MAX,
        ensures
            reg == old(self).next(),
            final(self).next() == old(self).next() + 1,
    {
        let reg = self.next_reg;
        self.next_reg = self.next_reg + 1;
        reg
    }
}

// ---------------------------------------------------------------------------------
// Building instruction lines
// ---------------------------------------------------------------------------------

fn push_reg(out: &mut Vec<char>, k: i64)
    ensures
        final(out)@ == old(out)@ + reg(k as int),
{
    push_str(out, "R");
    push_int(out, k);
    assert(out@ =~= old(out)@ + reg(k as int));
}

fn line2(name: &str, a: i64, b: i64) -> (r: String)
    ensures
        r@ == ins2(name@, a as int, b as int),
{
    let mut out: Vec<char> = Vec::new();
    push_str(&mut out, name);
    push_str(&mut out, " ");
    push_reg(&mut out, a);
    push_str(&mut out, " ");
    push_reg(&mut out, b);
    assert(out@ =~= ins2(name@, a as int, b as int));
    string_of(&out)
}

fn line3(name: &str, a: i64, b: i64, c: i64) -> (r: String)
    ensures
        r@ == ins3(name@, a as int, b as int, c as int),
{
    let mut out: Vec<char> = Vec::new();
    push_str(&mut out, name);
    push_str(&mut out, " ");
    push_reg(&mut out, a);
    push_str(&mut out, " ");
    push_reg(&mut out, b);
    push_str(&mut out, " ");
    push_reg(&mut out, c);
    assert(out@ =~= ins3(name@, a as int, b as int, c as int));
    string_of(&out)
}

fn line_val(name: &str, a: i64, sigil: char, t: &Vec<char>) -> (r: String)
    ensures
        r@ == ins_val(name@, a as int, sigil, t@),
{
    let mut out: Vec<char> = Vec::new();
    push_str(&mut out, name);
    push_str(&mut out, " ");
    push_reg(&mut out, a);
    push_str(&mut out, " ");
    out.push(sigil);
    push_all(&mut out, t);
    assert(out@ =~= ins_val(name@, a as int, sigil, t@));
    string_of(&out)
}

fn line_store(name: &Vec<char>, k: i64) -> (r: String)
    ensures
        r@ == st_var(name@, k as int),
{
    let mut out: Vec<char> = Vec::new();
    push_str(&mut out, "ST @");
    push_all(&mut out, name);
    push_str(&mut out, " ");
    push_reg(&mut out, k);
    assert(out@ =~= st_var(name@, k as int));
    string_of(&out)
}

fn int_chars(n: i64) -> (r: Vec<char>)
    ensures
        r@ == int_text(n as int),
{
    let mut out: Vec<char> = Vec::new();
    push_int(&mut out, n);
    assert(out@ =~= int_text(n as int));
    out
}

fn emit(out: &mut Vec<String>, s: String)
    ensures
        string_views(final(out)@) == string_views(old(out)@).push(s@),
{
    out.push(s);
    assert(string_views(out@) =~= string_views(old(out)@).push(s@));
}

fn error_vec() -> (r: Vec<String>)
    ensures
        string_views(r@) == error_lines(),
{
    let mut out: Vec<String> = Vec::new();
    emit(&mut out, owned("ERROR"));
    assert(string_views(out@) =~= error_lines());
    out
}

// ---------------------------------------------------------------------------------
// Operands
// ---------------------------------------------------------------------------------

/// An operand as held by the generator; `NegInt(n)` stands for `-n`.
enum Operand {
    Int(i64),
    NegInt(i64),
    Float(Real),
    Var(Vec<char>),
    NegVar(Vec<char>),
}

spec fn operand_view(o: Operand) -> OperandV {
    match o {
        Operand::Int(n) => OperandV::Int(n as int),
        Operand::NegInt(n) => OperandV::Int(-(n as int)),
        Operand::Float(r) => OperandV::Float(r@),
        Operand::Var(v) => OperandV::Var(v@),
        Operand::NegVar(v) => OperandV::NegVar(v@),
    }
}

fn operand_of(e: &Expr) -> (r: Option<Operand>)
    ensures
        match r {
            Some(o) => operand(e@) == Some(operand_view(o)),
            None => operand(e@) is None,
        },
{
    proof { reveal_with_fuel(crate::parser::expr_view, 2); }
    match e {
        Expr::Int(n) => Some(Operand::Int(*n)),
        Expr::Float(r) => Some(Operand::Float(r.copy())),
        Expr::Variable(v) => Some(Operand::Var(chars_of(v.as_str()))),
        Expr::UnaryOp(op, inner) => {
            if *op == owned("-") {
                match &**inner {
                    Expr::Int(n) => Some(Operand::NegInt(*n)),
                    Expr::Float(r) => Some(Operand::Float(r.negated())),
                    Expr::Variable(v) => Some(Operand::NegVar(chars_of(v.as_str()))),
                    _ => None,
                }
            } else {
                None
            }
        },
        _ => None,
    }
}

fn is_float_exec(o: &Operand) -> (b: bool)
    ensures
        b == is_float(operand_view(*o)),
{
    match o {
        Operand::Float(_) => true,
        _ => false,
    }
}

/// The operand is the integer zero.
fn is_zero_int(o: &Operand) -> (b: bool)
    ensures
        b == (operand_view(*o) matches OperandV::Int(n) && n == 0),
{
    match o {
        Operand::Int(n) => *n == 0,
        Operand::NegInt(n) => *n == 0,
        _ => false,
    }
}

/// Appends the instructions that load `o` into register `k`.
fn emit_load(out: &mut Vec<String>, o: &Operand, k: i64)
    requires
        k < i64::MAX,
    ensures
        string_views(final(out)@) == string_views(old(out)@) + load(operand_view(*o), k as int),
{
    let ghost start = string_views(out@);
    match o {
        Operand::Int(n) => {
            let t = int_chars(*n);
            emit(out, line_val("LD", k, '#', &t));
        },
        Operand::NegInt(n) => {
            let mut t: Vec<char> = Vec::new();
            push_neg_int(&mut t, *n);
            assert(t@ =~= int_text(-(*n as int)));
            emit(out, line_val("LD", k, '#', &t));
        },
        Operand::Float(r) => {
            let mut t: Vec<char> = Vec::new();
            r.push_text(&mut t);
            assert(t@ =~= real_text(r@));
            emit(out, line_val("LD", k, '#', &t));
        },
        Operand::Var(v) => {
            emit(out, line_val("LD", k, '@', v));
        },
        Operand::NegVar(v) => {
            emit(out, line_val("LD", k, '@', v));
            emit(out, line2("NEG.i", k, k));
        },
    }
    assert(string_views(out@) =~= start + load(operand_view(*o), k as int));
}

fn emit_to_float(out: &mut Vec<String>, convert: bool, k: i64)
    ensures
        string_views(final(out)@) == string_views(old(out)@) + to_float(convert, k as int),
{
    let ghost start = string_views(out@);
    if convert {
        emit(out, line2("FL.i", k, k));
    }
    assert(string_views(out@) =~= start + to_float(convert, k as int));
}

fn arith_name_exec(op: &String, float: bool) -> (r: Option<&'static str>)
    ensures
        match r {
            Some(s) => arith_name(op@, float) == Some(s@),
            None => arith_name(op@, float) is None,
        },
{
    if *op == owned("+") {
        Some(if float { "ADD.f" } else { "ADD.i" })
    } else if *op == owned("-") {
        Some(if float { "SUB.f" } else { "SUB.i" })
    } else if *op == owned("*") {
        Some(if float { "MUL.f" } else { "MUL.i" })
    } else if *op == owned("/") {
        Some(if float { "DIV.f" } else { "DIV.i" })
    } else {
        None
    }
}

fn compare_name_exec(op: &String, float: bool) -> (r: Option<&'static str>)
    ensures
        match r {
            Some(s) => compare_name(op@, float) == Some(s@),
            None => compare_name(op@, float) is None,
        },
{
    if *op == owned("==") {
        Some(if float { "EQ.f" } else { "EQ.i" })
    } else if *op == owned("!=") {
        Some(if float { "NE.f" } else { "NE.i" })
    } else if *op == owned("<") {
        Some(if float { "LT.f" } else { "LT.i" })
    } else if *op == owned(">") {
        Some(if float { "GT.f" } else { "GT.i" })
    } else if *op == owned("<=") {
        Some(if float { "LE.f" } else { "LE.i" })
    } else if *op == owned(">=") {
        Some(if float { "GE.f" } else { "GE.i" })
    } else {
        None
    }
}

// ---------------------------------------------------------------------------------
// List element targets
// ---------------------------------------------------------------------------------

fn slice_chars(v: &Vec<char>, lo: usize, hi: usize) -> (r: Vec<char>)
    requires
        lo <= hi <= v.len(),
    ensures
        r@ == v@.subrange(lo as int, hi as int),
{
    let mut r: Vec<char> = Vec::new();
    let mut i = lo;
    while i < hi
        invariant
            lo <= i <= hi <= v.len(),
            r@ == v@.subrange(lo as int, i as int),
        decreases hi - i,
    {
        r.push(v[i]);
        assert(v@.subrange(lo as int, i + 1) == v@.subrange(lo as int, i as int).push(v@[i as int]));
        i = i + 1;
    }
    r
}

fn all_digits_from(s: &Vec<char>, start: usize) -> (b: bool)
    requires
        start <= s.len(),
    ensures
        b == all_digit_chars(s@.skip(start as int)),
{
    if start == s.len() {
        return false;
    }
    let mut i = start;
    while i < s.len()
        invariant
            start <= i <= s.len(),
            forall|j: int| start <= j < i ==> is_digit(#[trigger] s@[j]),
        decreases s.len() - i,
    {
        if !('0' <= s[i] && s[i] <= '9') {
            assert(!is_digit(s@.skip(start as int)[i - start]));
            return false;
        }
        i = i + 1;
    }
    assert forall|j: int| 0 <= j < s@.skip(start as int).len() implies is_digit(#[trigger] s@.skip(start as int)[j]) by {
        assert(s@.skip(start as int)[j] == s@[j + start]);
    }
    true
}

fn int_numeral_exec(s: &Vec<char>) -> (b: bool)
    ensures
        b == int_numeral(s@),
{
    assert(s@.skip(0) == s@);
    if all_digits_from(s, 0) {
        true
    } else if s.len() > 1 && s[0] == '-' {
        assert(s@.skip(1) == s@.drop_first());
        all_digits_from(s, 1)
    } else {
        false
    }
}

/// The list and index named by an element target (see `element_target`).
fn element_target_exec(name: &Vec<char>) -> (r: Option<(Vec<char>, Vec<char>)>)
    ensures
        match r {
            Some((base, idx)) => element_target(name@) == Some((base@, idx@)),
            None => element_target(name@) is None,
        },
{
    let mut p: usize = 0;
    while p < name.len()
        invariant
            p <= name.len(),
            find_from(name@, '[', 0) == find_from(name@, '[', p as int),
        ensures
            p <= name.len(),
            find_from(name@, '[', 0) == find_from(name@, '[', p as int),
            p < name.len() ==> name@[p as int] == '[',
        decreases name.len() - p,
    {
        if name[p] == '[' {
            break;
        }
        p = p + 1;
    }
    if p >= name.len() {
        return None;
    }
    if name.len() - p < 2 || name[name.len() - 1] != ']' {
        return None;
    }
    let inner = slice_chars(name, p + 1, name.len() - 1);
    let idx = if inner.len() >= 2 && inner[0] == '(' && inner[inner.len() - 1] == ')' {
        slice_chars(&inner, 1, inner.len() - 1)
    } else {
        inner
    };
    if int_numeral_exec(&idx) {
        Some((slice_chars(name, 0, p), idx))
    } else {
        None
    }
}

// ---------------------------------------------------------------------------------
// Generation
// ---------------------------------------------------------------------------------

fn emit_element_address(out: &mut Vec<String>, l: &Vec<char>, idx: &Vec<char>, b: i64)
    requires
        b + 5 <= i64::MAX,
    ensures
        string_views(final(out)@) == string_views(old(out)@) + element_address(l@, idx@, b as int),
{
    let ghost start = string_views(out@);
    let four = int_chars(4);
    emit(out, line_val("LD", b, '@', l));
    emit(out, line_val("LD", b + 1, '#', idx));
    emit(out, line_val("LD", b + 2, '#', &four));
    emit(out, line3("MUL.i", b + 3, b + 1, b + 2));
    emit(out, line3("ADD.i", b + 4, b, b + 3));
    assert(string_views(out@) =~= start + element_address(l@, idx@, b as int));
}

fn emit_element_store(out: &mut Vec<String>, l: &Vec<char>, idx: &Vec<char>, b: i64)
    requires
        b + 5 <= i64::MAX,
    ensures
        string_views(final(out)@) == string_views(old(out)@) + element_store(l@, idx@, b as int),
{
    let ghost start = string_views(out@);
    let four = int_chars(4);
    emit(out, line_val("LD", b + 1, '@', l));
    emit(out, line_val("LD", b + 2, '#', idx));
    emit(out, line_val("LD", b + 3, '#', &four));
    emit(out, line3("MUL.i", b + 4, b + 2, b + 3));
    emit(out, line3("ADD.i", b + 2, b + 1, b + 4));
    emit(out, line2("ST", b + 2, b));
    assert(string_views(out@) =~= start + element_store(l@, idx@, b as int));
}

fn emit_zero_element(out: &mut Vec<String>, k: i64, b: i64)
    requires
        b + 5 <= i64::MAX,
    ensures
        string_views(final(out)@) == string_views(old(out)@) + zero_element(k as int, b as int),
{
    let ghost start = string_views(out@);
    let kt = int_chars(k);
    let four = int_chars(4);
    emit(out, line_val("LD", b + 2, '#', &kt));
    emit(out, line_val("LD", b + 3, '#', &four));
    emit(out, line3("MUL.i", b + 4, b + 2, b + 3));
    emit(out, line3("ADD.i", b + 5, b + 1, b + 4));
    emit(out, line2("ST", b + 5, b));
    assert(string_views(out@) =~= start + zero_element(k as int, b as int));
}

/// Takes `n` registers from `alloc` and returns the first.
fn take_registers(alloc: &mut RegisterAllocator, n: i64) -> (first: i64)
    requires
        0 < n <= 6,
        old(alloc).next() + 6 <= i64::MAX,
    ensures
        first == old(alloc).next(),
        final(alloc).next() == old(alloc).next() + n,
{
    let first = alloc.get_next_reg();
    let mut k: i64 = 1;
    while k < n
        invariant
            1 <= k <= n <= 6,
            first + 6 <= i64::MAX,
            alloc.next() == first + k,
        decreases n - k,
    {
        alloc.get_next_reg();
        k = k + 1;
    }
    first
}

fn gen_arithmetic(l: &Expr, op: &String, r: &Expr, alloc: &mut RegisterAllocator) -> (out: Vec<String>)
    requires
        arith_name(op@, false) is Some,
        old(alloc).next() + 6 <= i64::MAX,
    ensures
        string_views(out@) == arithmetic(l@, op@, r@, old(alloc).next()),
        final(alloc).next() == old(alloc).next()
            + (if string_views(out@) == error_lines() { 0int } else { 3int }),
{
    let ghost b0 = alloc.next();
    let (x, y) = match (operand_of(l), operand_of(r)) {
        (Some(x), Some(y)) => (x, y),
        _ => {
            return error_vec();
        },
    };
    let supported = match (&x, &y) {
        (Operand::Int(_), Operand::Int(_)) | (Operand::Int(_), Operand::NegInt(_))
        | (Operand::NegInt(_), Operand::Int(_)) | (Operand::NegInt(_), Operand::NegInt(_)) =>
            !(*op == owned("/") && is_zero_int(&y)),
        (Operand::Int(_), Operand::Float(_)) | (Operand::NegInt(_), Operand::Float(_)) => true,
        (Operand::Float(_), Operand::Int(_)) | (Operand::Float(_), Operand::NegInt(_)) => true,
        (Operand::Int(_), Operand::Var(_)) | (Operand::NegInt(_), Operand::Var(_)) => true,
        (Operand::Var(_), Operand::Int(_)) | (Operand::Var(_), Operand::NegInt(_)) => true,
        _ => false,
    };
    if !supported {
        return error_vec();
    }
    let b = take_registers(alloc, 3);
    let mut out: Vec<String> = Vec::new();
    let ghost start = string_views(out@);
    assert(start =~= Seq::<Seq<char>>::empty());
    let int_name = arith_name_exec(op, false).unwrap();
    let float_name = arith_name_exec(op, true).unwrap();
    let print = chars_of("print");
    match (&x, &y) {
        (Operand::Int(_), Operand::Int(_)) | (Operand::Int(_), Operand::NegInt(_))
        | (Operand::NegInt(_), Operand::Int(_)) | (Operand::NegInt(_), Operand::NegInt(_)) => {
            emit_load(&mut out, &x, b);
            emit_load(&mut out, &y, b + 1);
            emit(&mut out, line3(int_name, b + 2, b, b + 1));
            emit(&mut out, line_store(&print, b + 2));
        },
        (Operand::Int(_), Operand::Float(_)) | (Operand::NegInt(_), Operand::Float(_)) => {
            emit_load(&mut out, &x, b);
            emit_to_float(&mut out, true, b);
            emit_load(&mut out, &y, b + 1);
            emit(&mut out, line3(float_name, b + 2, b, b + 1));
            emit(&mut out, line_store(&print, b + 2));
        },
        (Operand::Float(_), Operand::Int(_)) | (Operand::Float(_), Operand::NegInt(_)) => {
            emit_load(&mut out, &x, b);
            emit_load(&mut out, &y, b + 1);
            emit_to_float(&mut out, true, b + 1);
            emit(&mut out, line3(float_name, b + 2, b, b + 1));
            emit(&mut out, line_store(&print, b + 2));
        },
        (Operand::Int(_), Operand::Var(_)) | (Operand::NegInt(_), Operand::Var(_)) => {
            emit_load(&mut out, &x, b);
            emit_load(&mut out, &y, b + 1);
            emit(&mut out, line3(int_name, b + 2, b, b + 1));
            emit(&mut out, line_store(&print, b + 2));
        },
        _ => {
            emit_load(&mut out, &y, b);
            emit_load(&mut out, &x, b + 1);
            emit(&mut out, line3(int_name, b + 2, b, b + 1));
            emit(&mut out, line_store(&print, b + 2));
        },
    }
    proof { lemma_compiled_not_error(string_views(out@)); }
    out
}

/// Compiled instructions start with a load, so they are not the `ERROR` line.
proof fn lemma_compiled_not_error(lines: Seq<Seq<char>>)
    requires
        lines.len() > 1,
    ensures
        lines != error_lines(),
{
}

fn gen_comparison(l: &Expr, op: &String, r: &Expr, alloc: &mut RegisterAllocator) -> (out: Vec<String>)
    requires
        old(alloc).next() + 6 <= i64::MAX,
    ensures
        string_views(out@) == comparison(l@, op@, r@, old(alloc).next()),
        final(alloc).next() == old(alloc).next()
            + (if string_views(out@) == error_lines() { 0int } else { 3int }),
{
    let mut out: Vec<String> = Vec::new();
    let ghost start = string_views(out@);
    assert(start =~= Seq::<Seq<char>>::empty());
    let print = chars_of("print");
    match (operand_of(l), operand_of(r), compare_name_exec(op, false)) {
        (Some(x), Some(y), Some(_)) => {
            let b = take_registers(alloc, 3);
            let fx = is_float_exec(&x);
            let fy = is_float_exec(&y);
            let fl = fx || fy;
            if *op == owned("!=") && !fl {
                emit_load(&mut out, &x, b);
                emit_load(&mut out, &y, b + 1);
                emit(&mut out, line2("FL.i", b, b));
                emit(&mut out, line2("FL.i", b + 1, b + 1));
                emit(&mut out, line3("NE.f", b + 2, b, b + 1));
                emit(&mut out, line_store(&print, b + 2));
            } else {
                let name = compare_name_exec(op, fl).unwrap();
                emit_load(&mut out, &x, b);
                emit_to_float(&mut out, fl && !fx, b);
                emit_load(&mut out, &y, b + 1);
                emit_to_float(&mut out, fl && !fy, b + 1);
                emit(&mut out, line3(name, b + 2, b, b + 1));
                emit(&mut out, line_store(&print, b + 2));
            }
            proof { lemma_compiled_not_error(string_views(out@)); }
            out
        },
        _ => error_vec(),
    }
}

fn gen_assignment(name: &String, value: &Expr, alloc: &mut RegisterAllocator) -> (out: Vec<String>)
    requires
        old(alloc).next() + 6 <= i64::MAX,
    ensures
        string_views(out@) == assignment(name@, value@, old(alloc).next()),
        final(alloc).next() == old(alloc).next()
            + (if string_views(out@) == error_lines() { 0int } else { regs_count(ExprV::Assignment(name@, Box::new(value@))) }),
{
    proof { reveal_with_fuel(crate::parser::expr_view, 2); }
    let target = chars_of(name.as_str());
    let mut out: Vec<String> = Vec::new();
    let ghost start = string_views(out@);
    assert(start =~= Seq::<Seq<char>>::empty());
    match value {
        Expr::List(_) => {
            let b = take_registers(alloc, 6);
            let zero = int_chars(0);
            emit(&mut out, line_val("LD", b, '#', &zero));
            emit(&mut out, line_val("LD", b + 1, '@', &target));
            emit_zero_element(&mut out, 0, b);
            emit_zero_element(&mut out, 1, b);
            assert(string_views(out@) =~= list_init(name@, b as int));
            proof { lemma_compiled_not_error(string_views(out@)); }
            out
        },
        Expr::ListAccess(l, index) => {
            match &**index {
                Expr::Int(i) => {
                    let source = chars_of(l.as_str());
                    let it = int_chars(*i);
                    match element_target_exec(&target) {
                        Some((base, idx)) => {
                            let b = take_registers(alloc, 6);
                            emit_element_address(&mut out, &source, &it, b);
                            emit(&mut out, line2("LD", b + 5, b + 4));
                            emit_element_address(&mut out, &base, &idx, b);
                            emit(&mut out, line2("ST", b + 4, b + 5));
                        },
                        None => {
                            let b = take_registers(alloc, 5);
                            emit_element_address(&mut out, &source, &it, b);
                            emit(&mut out, line2("LD", b, b + 4));
                            emit(&mut out, line_store(&target, b));
                        },
                    }
                    proof { lemma_compiled_not_error(string_views(out@)); }
                    out
                },
                _ => error_vec(),
            }
        },
        _ => {
            match operand_of(value) {
                Some(o) => {
                    match element_target_exec(&target) {
                        Some((base, idx)) => {
                            let b = take_registers(alloc, 5);
                            emit_load(&mut out, &o, b);
                            emit_element_store(&mut out, &base, &idx, b);
                        },
                        None => {
                            let b = take_registers(alloc, 1);
                            emit_load(&mut out, &o, b);
                            emit(&mut out, line_store(&target, b));
                        },
                    }
                    proof { lemma_compiled_not_error(string_views(out@)); }
                    out
                },
                None => error_vec(),
            }
        },
    }
}

/// The instructions for `expr`, with registers taken from `reg_alloc` (see
/// `instructions`).
fn generate_instructions(expr: &Expr, reg_alloc: &mut RegisterAllocator) -> (out: Vec<String>)
    requires
        old(reg_alloc).next() + 6 <= i64::MAX,
    ensures
        string_views(out@) == instructions(expr@, old(reg_alloc).next()),
        final(reg_alloc).next() == old(reg_alloc).next() + regs_used(expr@, old(reg_alloc).next()),
        names_plain(expr@) ==> forall|j: int| names_reg(string_views(out@), j)
            ==> old(reg_alloc).next() <= j < final(reg_alloc).next(),
{
    proof {
        reveal_with_fuel(crate::parser::expr_view, 2);
    }
    let ghost b0 = reg_alloc.next();
    let print = chars_of("print");
    let out = match expr {
        Expr::Int(n) => {
            let b = take_registers(reg_alloc, 1);
            let mut out: Vec<String> = Vec::new();
            assert(string_views(out@) =~= Seq::<Seq<char>>::empty());
            emit_load(&mut out, &Operand::Int(*n), b);
            emit(&mut out, line_store(&print, b));
            proof { lemma_compiled_not_error(string_views(out@)); }
            out
        },
        Expr::Float(f) => {
            let b = take_registers(reg_alloc, 1);
            let mut out: Vec<String> = Vec::new();
            assert(string_views(out@) =~= Seq::<Seq<char>>::empty());
            emit_load(&mut out, &Operand::Float(f.copy()), b);
            emit(&mut out, line_store(&print, b));
            proof { lemma_compiled_not_error(string_views(out@)); }
            out
        },
        Expr::BinaryOp(l, op, r) => {
            if arith_name_exec(op, false).is_some() {
                let out = gen_arithmetic(l, op, r, reg_alloc);
                assert(expr@ == ExprV::BinaryOp(Box::new(l@), op@, Box::new(r@)));
                out
            } else {
                error_vec()
            }
        },
        Expr::Assignment(name, value) => {
            let out = gen_assignment(name, value, reg_alloc);
            assert(expr@ == ExprV::Assignment(name@, Box::new(value@)));
            out
        },
        Expr::Boolean(l, op, r) => {
            let out = gen_comparison(l, op, r, reg_alloc);
            assert(expr@ == ExprV::Boolean(Box::new(l@), op@, Box::new(r@)));
            out
        },
        Expr::ListAccess(l, index) => {
            match &**index {
                Expr::Int(i) => {
                    let b = take_registers(reg_alloc, 5);
                    let mut out: Vec<String> = Vec::new();
                    assert(string_views(out@) =~= Seq::<Seq<char>>::empty());
                    let source = chars_of(l.as_str());
                    let it = int_chars(*i);
                    emit_element_address(&mut out, &source, &it, b);
                    emit(&mut out, line_store(&print, b + 4));
                    proof { lemma_compiled_not_error(string_views(out@)); }
                    out
                },
                _ => error_vec(),
            }
        },
        _ => error_vec(),
    };
    assert(string_views(out@) == instructions(expr@, b0));
    proof {
        if names_plain(expr@) {
            law_registers_in_range(expr@, b0);
            assert forall|j: int| names_reg(string_views(out@), j) implies b0 <= j < reg_alloc.next() by {
                assert(names_reg(instructions(expr@, b0), j));
            }
        }
    }
    out
}

/// The instructions for one expression, with registers numbered from `R0`; a single
/// `ERROR` line when the expression cannot be compiled. When the expression's names hold
/// no whitespace, the registers named are `R0` up to, not including,
/// `R(regs_used(expr, 0))`.
pub fn generate_assembly(expr: &Expr) -> (r: Vec<String>)
    ensures
        string_views(r@) == instructions(expr@, 0),
        names_plain(expr@) ==> forall|j: int| names_reg(string_views(r@), j) ==> 0 <= j < regs_used(expr@, 0),
{
    let mut reg_alloc = RegisterAllocator::new();
    let instructions = generate_instructions(expr, &mut reg_alloc);
    if instructions.len() == 1 && instructions[0] == owned("ERROR") {
        let mut result: Vec<String> = Vec::new();
        emit(&mut result, owned("ERROR"));
        assert(string_views(result@) =~= string_views(instructions@));
        result
    } else {
        instructions
    }
}

// ---------------------------------------------------------------------------------
// Whole programs
// ---------------------------------------------------------------------------------

/// The instructions for each outcome in turn: an expression's instructions, or `ERROR`
/// for a line that did not parse, with an empty line between consecutive blocks.
pub open spec fn assemble(results: Seq<Result<ExprV, ParseErrorV>>) -> Seq<Seq<char>>
    decreases results.len(),
{
    if results.len() == 0 {
        Seq::empty()
    } else {
        let acc = assemble(results.drop_last());
        match results.last() {
            Ok(e) => (if acc.len() > 0 { acc.push(Seq::empty()) } else { acc }) + instructions(e, 0),
            Err(_) => (if acc.len() > 0 && acc.last() != Seq::<char>::empty() { acc.push(Seq::empty()) } else { acc })
                .push("ERROR"@),
        }
    }
}

/// The program for a list of parse outcomes: `assemble`, ending with an empty line.
pub fn generate_code(parsed_data: Vec<Result<Expr, ParseError>>) -> (r: Vec<String>)
    ensures
        string_views(r@) == assemble(results_view(parsed_data@)).push(Seq::empty()),
{
    let ghost rs = results_view(parsed_data@);
    let mut result: Vec<String> = Vec::new();
    assert(string_views(result@) =~= Seq::<Seq<char>>::empty());
    assert(rs.take(0) =~= Seq::<Result<ExprV, ParseErrorV>>::empty());
    for i in 0..parsed_data.len()
        invariant
            rs == results_view(parsed_data@),
            string_views(result@) == assemble(rs.take(i as int)),
    {
        assert(rs.take(i + 1).drop_last() == rs.take(i as int));
        assert(rs.take(i + 1).last() == crate::parser::result_view(parsed_data@[i as int]));
        let ghost before = string_views(result@);
        match &parsed_data[i] {
            Ok(expr) => {
                let instructions = generate_assembly(expr);
                if result.len() > 0 {
                    emit(&mut result, String::new());
                }
                let ghost mid = string_views(result@);
                assert(mid == (if before.len() > 0 { before.push(Seq::<char>::empty()) } else { before }));
                assert(rs.take(i + 1).last() == Ok::<ExprV, ParseErrorV>(expr@));
                for j in 0..instructions.len()
                    invariant
                        string_views(result@) == mid + string_views(instructions@).take(j as int),
                {
                    let line = instructions[j].clone();
                    assert(line@ == string_views(instructions@)[j as int]);
                    emit(&mut result, line);
                    assert(string_views(instructions@).take(j + 1)
                        == string_views(instructions@).take(j as int).push(string_views(instructions@)[j as int]));
                }
                assert(string_views(instructions@).take(instructions.len() as int) == string_views(instructions@));
                assert(string_views(result@) == assemble(rs.take(i + 1)));
            },
            Err(_) => {
                if result.len() > 0 && !result[result.len() - 1].as_str().is_empty() {
                    assert(string_views(result@).last() == result@[result.len() - 1]@);
                    emit(&mut result, String::new());
                } else if result.len() > 0 {
                    assert(string_views(result@).last() == result@[result.len() - 1]@);
                    assert(string_views(result@).last() =~= Seq::<char>::empty());
                }
                let ghost mid = string_views(result@);
                assert(mid == (if before.len() > 0 && before.last() != Seq::<char>::empty() {
                    before.push(Seq::<char>::empty()) } else { before }));
                emit(&mut result, owned("ERROR"));
                assert(rs.take(i + 1).last() is Err);
                assert(string_views(result@) == assemble(rs.take(i + 1)));
            },
        }
    }
    assert(rs.take(parsed_data.len() as int) == rs);
    emit(&mut result, String::new());
    result
}

} // verus!
