//! Laws that span the code generator and the machine: the instructions generated for
//! an integer expression, run on the machine, print the expression's value.
use vstd::prelude::*;
use crate::parser::ExprV;
use crate::codegen::{instructions, load, reg, ins2, ins3, ins_val, st_var, arith_name, compare_name, OperandV};
use crate::vm::{VmV, ExecV, StepV, Value, ArithKind, AnswerV, execute, step_spec, words, is_word, is_space,
    get, put, set_reg, int_arith, parse_i32, all_digits, digits_nat, lemma_words_three, lemma_words_four,
    starts_with, ends_with, abs, Relation, relation_holds, exec_compare};
use crate::text::{int_text, nat_text, digit_char, char_digit, is_digit};

verus! {

// ---------------------------------------------------------------------------------
// Numerals
// ---------------------------------------------------------------------------------

pub(crate) proof fn lemma_nat_text(n: nat)
    ensures
        all_digits(nat_text(n)),
        digits_nat(nat_text(n)) == n,
    decreases n,
{
    let t = nat_text(n);
    let d: nat = if n < 10 { n } else { n % 10 };
    assert(char_digit(digit_char(d)) == d && is_digit(digit_char(d))) by {
        assert(d < 10);
    }
    if n < 10 {
        assert(t == seq![digit_char(n)]);
        assert(t.drop_last() =~= Seq::<char>::empty());
        assert(digits_nat(t) == digits_nat(t.drop_last()) * 10 + char_digit(t.last()));
    } else {
        lemma_nat_text(n / 10);
        let p = nat_text(n / 10);
        assert(t == p.push(digit_char(n % 10)));
        assert(t.drop_last() == p);
        assert(t.last() == digit_char(d));
        assert(digits_nat(t) == digits_nat(p) * 10 + char_digit(t.last()));
        assert((n / 10) * 10 + n % 10 == n);
        assert forall|i: int| 0 <= i < t.len() implies is_digit(#[trigger] t[i]) by {
            if i < p.len() { assert(t[i] == p[i]); }
        }
    }
}

/// The numeral of an `i32` reads back as that `i32`.
proof fn lemma_int_text_parse(n: i32)
    ensures
        parse_i32(int_text(n as int)) == Some(n),
        !int_text(n as int).contains('.'),
        is_word(int_text(n as int)),
{
    let t = int_text(n as int);
    if n < 0 {
        lemma_nat_text((-n) as nat);
        assert(t.drop_first() =~= nat_text((-n) as nat));
    } else {
        lemma_nat_text(n as nat);
        assert(t[0] != '-' && t[0] != '+') by { assert(is_digit(t[0])); }
    }
    assert forall|k: int| 0 <= k < t.len() implies t[k] != '.' && !is_space(#[trigger] t[k]) by {
        if n < 0 {
            if k > 0 { assert(t[k] == t.drop_first()[k - 1]); assert(is_digit(t.drop_first()[k - 1])); }
        } else {
            assert(is_digit(t[k]));
        }
    }
}

proof fn lemma_reg_word(k: int)
    requires
        0 <= k <= i32::MAX,
    ensures
        is_word(reg(k)),
{
    reveal_strlit("R");
    lemma_int_text_parse(k as i32);
    let r = reg(k);
    assert forall|j: int| 0 <= j < r.len() implies !is_space(#[trigger] r[j]) by {
        if j > 0 { assert(r[j] == int_text(k)[j - 1]); }
    }
}

proof fn lemma_regs_differ(a: int, b: int)
    requires
        0 <= a < 10,
        0 <= b < 10,
        a != b,
    ensures
        reg(a) != reg(b),
{
    reveal_strlit("R");
    assert(reg(a)[1] == digit_char(a as nat));
    assert(reg(b)[1] == digit_char(b as nat));
}

/// `get` after a `put` under another name.
proof fn lemma_get_put_other<V>(vs: Seq<(Seq<char>, V)>, n1: Seq<char>, v: V, n2: Seq<char>)
    requires
        n1 != n2,
    ensures
        get(put(vs, n1, v), n2) == get(vs, n2),
{
    crate::vm::lemma_get_put_other(vs, n1, v, n2);
}

// ---------------------------------------------------------------------------------
// Single instructions
// ---------------------------------------------------------------------------------

/// The machine kind of an arithmetic operator.
pub open spec fn arith_kind(op: Seq<char>) -> ArithKind {
    if op == "+"@ {
        ArithKind::Add
    } else if op == "-"@ {
        ArithKind::Sub
    } else if op == "*"@ {
        ArithKind::Mul
    } else {
        ArithKind::Div
    }
}

proof fn lemma_literal_words()
    ensures
        is_word("LD"@),
        is_word("ST"@),
        is_word("@print"@),
        is_word("ADD.i"@),
        is_word("SUB.i"@),
        is_word("MUL.i"@),
        is_word("DIV.i"@),
        " "@ == seq![' '],
        "ST @"@ + "print"@ == "ST"@ + seq![' '] + "@print"@,
{
    reveal_strlit("LD");
    reveal_strlit("ST");
    reveal_strlit("@print");
    reveal_strlit("print");
    reveal_strlit("ST @");
    reveal_strlit(" ");
    reveal_strlit("ADD.i");
    reveal_strlit("SUB.i");
    reveal_strlit("MUL.i");
    reveal_strlit("DIV.i");
    assert("ST @"@ + "print"@ =~= "ST"@ + seq![' '] + "@print"@);
}

/// `LD Rk #n` puts the integer `n` in register `k`.
proof fn lemma_run_load_int(st: VmV, k: int, n: i32, ans: Seq<AnswerV>)
    requires
        0 <= k < 10,
    ensures
        execute(st, ins_val("LD"@, k, '#', int_text(n as int)), ans) == set_reg(st, reg(k), Value::Int(n)),
{
    lemma_literal_words();
    reveal_strlit("#");
    lemma_reg_word(k);
    lemma_int_text_parse(n);
    let t = int_text(n as int);
    let src = seq!['#'] + t;
    assert(is_word(src)) by {
        assert forall|j: int| 0 <= j < src.len() implies !is_space(#[trigger] src[j]) by {
            if j > 0 { assert(src[j] == t[j - 1]); }
        }
    }
    assert(ins_val("LD"@, k, '#', t) =~= "LD"@ + seq![' '] + reg(k) + seq![' '] + src);
    lemma_words_three("LD"@, reg(k), src);
    assert(starts_with(src, "#"@)) by { assert(src.subrange(0, 1) =~= "#"@); }
    assert(src.drop_first() =~= t);
}

/// `ST @print Rk` prints the integer in register `k` and adds it to the output.
proof fn lemma_run_print_int(st: VmV, k: int, v: i32, ans: Seq<AnswerV>)
    requires
        0 <= k < 10,
        get(st.registers, reg(k)) == Some(Value::Int(v)),
    ensures
        execute(st, st_var("print"@, k), ans)
            == ExecV::Done(VmV { output: st.output.push(int_text(v as int)), ..st }, Some(int_text(v as int))),
{
    lemma_literal_words();
    lemma_reg_word(k);
    assert(st_var("print"@, k) =~= "ST"@ + seq![' '] + "@print"@ + seq![' '] + reg(k));
    lemma_words_three("ST"@, "@print"@, reg(k));
    reveal_strlit("LD");
    reveal_strlit("ST");
    reveal_strlit("@print");
    let parts = seq!["ST"@, "@print"@, reg(k)];
    assert(parts[0] != "LD"@);
    assert(crate::vm::exec_st(st, parts, ans)
        == ExecV::Done(VmV { output: st.output.push(int_text(v as int)), ..st }, Some(int_text(v as int))));
}

/// `OP.i Rd Ra Rb` puts the integer result of the operation in register `d`.
proof fn lemma_run_arith_int(st: VmV, op: Seq<char>, d: int, a: int, b: int, va: i32, vb: i32, ans: Seq<AnswerV>)
    requires
        arith_name(op, false) is Some,
        0 <= d < 10,
        0 <= a < 10,
        0 <= b < 10,
        get(st.registers, reg(a)) == Some(Value::Int(va)),
        get(st.registers, reg(b)) == Some(Value::Int(vb)),
        op == "/"@ ==> vb != 0,
    ensures
        execute(st, ins3(arith_name(op, false).unwrap(), d, a, b), ans)
            == set_reg(st, reg(d), Value::Int(int_arith(arith_kind(op), va, vb))),
{
    lemma_literal_words();
    lemma_reg_word(d);
    lemma_reg_word(a);
    lemma_reg_word(b);
    let name = arith_name(op, false).unwrap();
    assert(ins3(name, d, a, b) =~= name + seq![' '] + reg(d) + seq![' '] + reg(a) + seq![' '] + reg(b));
    lemma_words_four(name, reg(d), reg(a), reg(b));
    reveal_strlit("LD");
    reveal_strlit("ST");
    reveal_strlit("ADD");
    reveal_strlit("SUB");
    reveal_strlit("MUL");
    reveal_strlit("DIV");
    reveal_strlit(".f");
    reveal_strlit("ADD.i");
    reveal_strlit("SUB.i");
    reveal_strlit("MUL.i");
    reveal_strlit("DIV.i");
    reveal_strlit("+");
    reveal_strlit("-");
    reveal_strlit("*");
    reveal_strlit("/");
    assert(!ends_with(name, ".f"@)) by {
        assert(name.subrange(name.len() - 2, name.len() as int)[1] == 'i');
    }
    assert(name != "LD"@ && name != "ST"@) by {
        assert(name.len() == 5);
    }
    if op == "+"@ {
        assert(starts_with(name, "ADD"@)) by { assert(name.subrange(0, 3) =~= "ADD"@); }
    } else if op == "-"@ {
        assert(!starts_with(name, "ADD"@)) by { assert(name.subrange(0, 3)[0] != "ADD"@[0]); }
        assert(starts_with(name, "SUB"@)) by { assert(name.subrange(0, 3) =~= "SUB"@); }
    } else if op == "*"@ {
        assert(!starts_with(name, "ADD"@)) by { assert(name.subrange(0, 3)[0] != "ADD"@[0]); }
        assert(!starts_with(name, "SUB"@)) by { assert(name.subrange(0, 3)[0] != "SUB"@[0]); }
        assert(starts_with(name, "MUL"@)) by { assert(name.subrange(0, 3) =~= "MUL"@); }
    } else {
        assert(op == "/"@);
        assert(!starts_with(name, "ADD"@)) by { assert(name.subrange(0, 3)[0] != "ADD"@[0]); }
        assert(!starts_with(name, "SUB"@)) by { assert(name.subrange(0, 3)[0] != "SUB"@[0]); }
        assert(!starts_with(name, "MUL"@)) by { assert(name.subrange(0, 3)[0] != "MUL"@[0]); }
        assert(starts_with(name, "DIV"@)) by { assert(name.subrange(0, 3) =~= "DIV"@); }
    }
}

// ---------------------------------------------------------------------------------
// Whole programs
// ---------------------------------------------------------------------------------

/// The state after up to `n` steps that need no float work (it stops at a step that
/// does not run).
pub open spec fn run_plain(st: VmV, n: nat) -> VmV
    decreases n,
{
    if n == 0 {
        st
    } else {
        match step_spec(st, Seq::empty()) {
            (StepV::Ran(_), st2) => run_plain(st2, (n - 1) as nat),
            _ => st,
        }
    }
}

/// Compile, then run: the instructions for an integer `n` (one that fits 32 bits), run
/// on the machine, print `n` and stop.
pub proof fn law_run_integer(st: VmV, n: i64)
    requires
        i32::MIN <= n <= i32::MAX,
        st.program == instructions(ExprV::Int(n), 0),
        st.pc == 0,
    ensures
        run_plain(st, 2).output == st.output.push(int_text(n as int)),
        step_spec(run_plain(st, 2), Seq::empty()).0 == StepV::Halted,
{
    let e: Seq<AnswerV> = Seq::empty();
    let v = n as i32;
    assert(st.program == seq![ins_val("LD"@, 0, '#', int_text(n as int)), st_var("print"@, 0)]);
    lemma_run_load_int(st, 0, v, e);
    let st1 = VmV { pc: 1, registers: put(st.registers, reg(0), Value::Int(v)), ..st };
    assert(step_spec(st, e) == (StepV::Ran(None), st1));
    crate::vm::lemma_get_put(st.registers, reg(0), Value::Int(v));
    lemma_run_print_int(st1, 0, v, e);
    let st2 = VmV { pc: 2, output: st.output.push(int_text(n as int)), ..st1 };
    assert(step_spec(st1, e) == (StepV::Ran(Some(int_text(n as int))), st2));
    assert(run_plain(st2, 0) == st2);
    assert(run_plain(st1, 1) == st2);
    assert(run_plain(st, 2) == st2);
}

/// A step that runs the instruction at `pc`.
proof fn lemma_step_ran(st: VmV, st2: VmV, printed: Option<Seq<char>>)
    requires
        st.pc < st.program.len(),
        execute(st, st.program[st.pc as int], Seq::empty()) == ExecV::Done(st2, printed),
    ensures
        step_spec(st, Seq::empty()) == (StepV::Ran(printed), VmV { pc: (st.pc + 1) as usize, ..st2 }),
{
}

/// The instructions for `a op b` on two integer literals.
proof fn lemma_arith_program(a: i64, op: Seq<char>, b: i64)
    requires
        arith_name(op, false) is Some,
        op == "/"@ ==> b != 0,
    ensures
        instructions(ExprV::BinaryOp(Box::new(ExprV::Int(a)), op, Box::new(ExprV::Int(b))), 0) == seq![
            ins_val("LD"@, 0, '#', int_text(a as int)),
            ins_val("LD"@, 1, '#', int_text(b as int)),
            ins3(arith_name(op, false).unwrap(), 2, 0, 1),
            st_var("print"@, 2),
        ],
{
    assert(load(OperandV::Int(a as int), 0) + load(OperandV::Int(b as int), 1)
        + seq![ins3(arith_name(op, false).unwrap(), 2, 0, 1), st_var("print"@, 2)] =~= seq![
            ins_val("LD"@, 0, '#', int_text(a as int)),
            ins_val("LD"@, 1, '#', int_text(b as int)),
            ins3(arith_name(op, false).unwrap(), 2, 0, 1),
            st_var("print"@, 2),
        ]);
}

/// What the machine's operation for each operator computes, written out.
proof fn lemma_arith_kind_exact(op: Seq<char>, a: i32, b: i32)
    requires
        op == "/"@ ==> b != 0,
    ensures
        ({
            let r = int_arith(arith_kind(op), a, b) as int;
            &&& op == "+"@ ==> (r - (a + b)) % 0x1_0000_0000 == 0
            &&& op == "-"@ ==> (r - (a - b)) % 0x1_0000_0000 == 0
            &&& op == "*"@ ==> (r - a * b) % 0x1_0000_0000 == 0
            &&& op == "/"@ && !(a == i32::MIN && b == -1) ==> abs(a - r * b) < abs(b as int)
                && (a - r * b == 0 || ((a - r * b) < 0) == (a < 0))
        }),
{
    reveal_strlit("+");
    reveal_strlit("-");
    reveal_strlit("*");
    reveal_strlit("/");
    crate::vm::law_int_arith_exact(a, b);
    assert("-"@[0] != "+"@[0]);
    assert("*"@[0] != "+"@[0] && "*"@[0] != "-"@[0]);
    assert("/"@[0] != "+"@[0] && "/"@[0] != "-"@[0] && "/"@[0] != "*"@[0]);
    let r = int_arith(arith_kind(op), a, b) as int;
    if op == "+"@ {
        assert(arith_kind(op) == ArithKind::Add);
        assert((r - (a + b)) % 0x1_0000_0000 == 0);
    } else if op == "-"@ {
        assert(arith_kind(op) == ArithKind::Sub);
        assert((r - (a - b)) % 0x1_0000_0000 == 0);
    } else if op == "*"@ {
        assert(arith_kind(op) == ArithKind::Mul);
        assert((r - a * b) % 0x1_0000_0000 == 0);
    } else if op == "/"@ {
        assert(arith_kind(op) == ArithKind::Div);
        if !(a == i32::MIN && b == -1) {
            assert(abs(a - r * b) < abs(b as int));
        }
    }
}

/// An integer instruction on two registers holding integers puts in its destination
/// the result of its operator written out: the sum, the first operand minus the
/// second, the product (each modulo 2^32), or the quotient rounded toward zero.
pub proof fn law_arith_instruction(st: VmV, op: Seq<char>, d: int, x: int, y: int, a: i32, b: i32)
    requires
        arith_name(op, false) is Some,
        0 <= d < 10,
        0 <= x < 10,
        0 <= y < 10,
        get(st.registers, reg(x)) == Some(Value::Int(a)),
        get(st.registers, reg(y)) == Some(Value::Int(b)),
        op == "/"@ ==> b != 0,
    ensures
        execute(st, ins3(arith_name(op, false).unwrap(), d, x, y), Seq::empty()) matches ExecV::Done(st2, None)
            && get(st2.registers, reg(d)) matches Some(Value::Int(v))
            && (op == "+"@ ==> (v - (a + b)) % 0x1_0000_0000 == 0)
            && (op == "-"@ ==> (v - (a - b)) % 0x1_0000_0000 == 0)
            && (op == "*"@ ==> (v - a * b) % 0x1_0000_0000 == 0)
            && (op == "/"@ && !(a == i32::MIN && b == -1) ==> abs(a - v * b) < abs(b as int)
                && (a - v * b == 0 || ((a - v * b) < 0) == (a < 0))),
{
    lemma_run_arith_int(st, op, d, x, y, a, b, Seq::empty());
    crate::vm::lemma_get_put(st.registers, reg(d), Value::Int(int_arith(arith_kind(op), a, b)));
    lemma_arith_kind_exact(op, a, b);
}

/// Compile, then run: the instructions for `a op b` on two integers that fit 32 bits
/// (`op` one of `+ - * /`, and `b` not zero for `/`), run on the machine, print the
/// result of the operation (wrapping to 32 bits, division toward zero) and stop.
pub proof fn law_run_arithmetic(st: VmV, a: i64, op: Seq<char>, b: i64)
    requires
        arith_name(op, false) is Some,
        i32::MIN <= a <= i32::MAX,
        i32::MIN <= b <= i32::MAX,
        op == "/"@ ==> b != 0,
        st.program == instructions(ExprV::BinaryOp(Box::new(ExprV::Int(a)), op, Box::new(ExprV::Int(b))), 0),
        st.pc == 0,
    ensures
        run_plain(st, 4).output == st.output.push(int_text(int_arith(arith_kind(op), a as i32, b as i32) as int)),
        step_spec(run_plain(st, 4), Seq::empty()).0 == StepV::Halted,
        ({
            let r = int_arith(arith_kind(op), a as i32, b as i32) as int;
            &&& op == "+"@ ==> (r - (a + b)) % 0x1_0000_0000 == 0
            &&& op == "-"@ ==> (r - (a - b)) % 0x1_0000_0000 == 0
            &&& op == "*"@ ==> (r - a * b) % 0x1_0000_0000 == 0
            &&& op == "/"@ && !(a == i32::MIN && b == -1) ==> abs(a - r * b) < abs(b as int)
                && (a - r * b == 0 || ((a - r * b) < 0) == (a < 0))
        }),
{
    lemma_arith_kind_exact(op, a as i32, b as i32);
    let e: Seq<AnswerV> = Seq::empty();
    let va = a as i32;
    let vb = b as i32;
    let r = int_arith(arith_kind(op), va, vb);
    lemma_arith_program(a, op, b);
    let prog = st.program;
    lemma_regs_differ(0, 1);

    lemma_run_load_int(st, 0, va, e);
    let regs1 = put(st.registers, reg(0), Value::Int(va));
    lemma_step_ran(st, VmV { registers: regs1, ..st }, None);
    let st1 = VmV { pc: 1, registers: regs1, ..st };

    lemma_run_load_int(st1, 1, vb, e);
    let regs2 = put(regs1, reg(1), Value::Int(vb));
    lemma_step_ran(st1, VmV { registers: regs2, ..st1 }, None);
    let st2 = VmV { pc: 2, registers: regs2, ..st1 };

    crate::vm::lemma_get_put(st.registers, reg(0), Value::Int(va));
    lemma_get_put_other(regs1, reg(1), Value::Int(vb), reg(0));
    crate::vm::lemma_get_put(regs1, reg(1), Value::Int(vb));
    lemma_run_arith_int(st2, op, 2, 0, 1, va, vb, e);
    let regs3 = put(regs2, reg(2), Value::Int(r));
    lemma_step_ran(st2, VmV { registers: regs3, ..st2 }, None);
    let st3 = VmV { pc: 3, registers: regs3, ..st2 };

    crate::vm::lemma_get_put(regs2, reg(2), Value::Int(r));
    lemma_run_print_int(st3, 2, r, e);
    let out = st.output.push(int_text(r as int));
    lemma_step_ran(st3, VmV { output: out, ..st3 }, Some(int_text(r as int)));
    let st4 = VmV { pc: 4, output: out, ..st3 };

    assert(run_plain(st4, 0) == st4);
    assert(run_plain(st3, 1) == st4);
    assert(run_plain(st2, 2) == st4);
    assert(run_plain(st1, 3) == st4);
    assert(run_plain(st, 4) == st4);
}


/// The relation that the comparison operator `op` of the language stands for.
pub open spec fn op_holds(op: Seq<char>, a: int, b: int) -> bool {
    ||| (op == "=="@ && a == b)
    ||| (op == "!="@ && a != b)
    ||| (op == "<"@ && a < b)
    ||| (op == ">"@ && a > b)
    ||| (op == "<="@ && a <= b)
    ||| (op == ">="@ && a >= b)
}

/// The machine's relation of a comparison instruction's name (`EQ.i`, `LT.f`, ...), and
/// whether it is the float form.
pub open spec fn named_relation(name: Seq<char>) -> Option<(Relation, bool)> {
    if name == "EQ.i"@ { Some((Relation::Eq, false)) }
    else if name == "NE.i"@ { Some((Relation::Ne, false)) }
    else if name == "LT.i"@ { Some((Relation::Lt, false)) }
    else if name == "GT.i"@ { Some((Relation::Gt, false)) }
    else if name == "LE.i"@ { Some((Relation::Le, false)) }
    else if name == "GE.i"@ { Some((Relation::Ge, false)) }
    else if name == "EQ.f"@ { Some((Relation::Eq, true)) }
    else if name == "NE.f"@ { Some((Relation::Ne, true)) }
    else if name == "LT.f"@ { Some((Relation::Lt, true)) }
    else if name == "GT.f"@ { Some((Relation::Gt, true)) }
    else if name == "LE.f"@ { Some((Relation::Le, true)) }
    else if name == "GE.f"@ { Some((Relation::Ge, true)) }
    else { None }
}

proof fn lemma_reveal_compare_names()
    ensures
        "EQ.i"@.len() == 4 && "EQ.i"@[0] == 'E' && "EQ.i"@[1] == 'Q' && "EQ.i"@[3] == 'i',
        "NE.i"@.len() == 4 && "NE.i"@[0] == 'N' && "NE.i"@[1] == 'E' && "NE.i"@[3] == 'i',
        "LT.i"@.len() == 4 && "LT.i"@[0] == 'L' && "LT.i"@[1] == 'T' && "LT.i"@[3] == 'i',
        "GT.i"@.len() == 4 && "GT.i"@[0] == 'G' && "GT.i"@[1] == 'T' && "GT.i"@[3] == 'i',
        "LE.i"@.len() == 4 && "LE.i"@[0] == 'L' && "LE.i"@[1] == 'E' && "LE.i"@[3] == 'i',
        "GE.i"@.len() == 4 && "GE.i"@[0] == 'G' && "GE.i"@[1] == 'E' && "GE.i"@[3] == 'i',
        "EQ.f"@.len() == 4 && "EQ.f"@[0] == 'E' && "EQ.f"@[1] == 'Q' && "EQ.f"@[3] == 'f',
        "NE.f"@.len() == 4 && "NE.f"@[0] == 'N' && "NE.f"@[1] == 'E' && "NE.f"@[3] == 'f',
        "LT.f"@.len() == 4 && "LT.f"@[0] == 'L' && "LT.f"@[1] == 'T' && "LT.f"@[3] == 'f',
        "GT.f"@.len() == 4 && "GT.f"@[0] == 'G' && "GT.f"@[1] == 'T' && "GT.f"@[3] == 'f',
        "LE.f"@.len() == 4 && "LE.f"@[0] == 'L' && "LE.f"@[1] == 'E' && "LE.f"@[3] == 'f',
        "GE.f"@.len() == 4 && "GE.f"@[0] == 'G' && "GE.f"@[1] == 'E' && "GE.f"@[3] == 'f',
        "=="@.len() == 2 && "=="@[0] == '=' && "=="@[1] == '=',
        "!="@.len() == 2 && "!="@[0] == '!' && "!="@[1] == '=',
        "<="@.len() == 2 && "<="@[0] == '<' && "<="@[1] == '=',
        ">="@.len() == 2 && ">="@[0] == '>' && ">="@[1] == '=',
        "<"@.len() == 1 && "<"@[0] == '<',
        ">"@.len() == 1 && ">"@[0] == '>',
{
    reveal_strlit("EQ.i"); reveal_strlit("NE.i"); reveal_strlit("LT.i"); reveal_strlit("GT.i");
    reveal_strlit("LE.i"); reveal_strlit("GE.i"); reveal_strlit("EQ.f"); reveal_strlit("NE.f");
    reveal_strlit("LT.f"); reveal_strlit("GT.f"); reveal_strlit("LE.f"); reveal_strlit("GE.f");
    reveal_strlit("=="); reveal_strlit("!="); reveal_strlit("<"); reveal_strlit(">");
    reveal_strlit("<="); reveal_strlit(">=");
}

/// A comparison compiles to the instruction of its own relation: the machine reads the
/// integer form and the float form of `op`'s instruction as comparisons by a relation
/// that holds exactly when `op` does.
pub proof fn law_compare_names(op: Seq<char>)
    requires
        compare_name(op, false) is Some,
    ensures
        named_relation(compare_name(op, false).unwrap()) matches Some((k, fl))
            && !fl && forall|a: int, b: int| relation_holds(k, a, b) == op_holds(op, a, b),
        named_relation(compare_name(op, true).unwrap()) matches Some((k, fl))
            && fl && forall|a: int, b: int| relation_holds(k, a, b) == op_holds(op, a, b),
{
    lemma_reveal_compare_names();
    if op == "=="@ {
    } else if op == "!="@ {
    } else if op == "<"@ {
    } else if op == ">"@ {
    } else if op == "<="@ {
    } else {
        assert(op == ">="@);
    }
}


proof fn lemma_reveal_other_names()
    ensures
        "LD"@.len() == 2,
        "ST"@.len() == 2,
        "ADD"@.len() == 3 && "ADD"@[0] == 'A',
        "SUB"@.len() == 3 && "SUB"@[0] == 'S',
        "MUL"@.len() == 3 && "MUL"@[0] == 'M',
        "DIV"@.len() == 3 && "DIV"@[0] == 'D',
        "print"@.len() == 5,
        "FL.i"@.len() == 4 && "FL.i"@[0] == 'F',
{
    reveal_strlit("LD"); reveal_strlit("ST"); reveal_strlit("ADD"); reveal_strlit("SUB");
    reveal_strlit("MUL"); reveal_strlit("DIV"); reveal_strlit("print"); reveal_strlit("FL.i");
}

/// The machine carries out a comparison instruction by the relation its name stands
/// for: an instruction whose first word names a comparison runs as a comparison of its
/// two source registers by that relation, in the name's form (integer or float).
pub proof fn law_compare_dispatch(st: VmV, instr: Seq<char>, ans: Seq<AnswerV>)
    requires
        words(instr).len() > 0,
        named_relation(words(instr)[0]) is Some,
    ensures
        execute(st, instr, ans) == exec_compare(st, words(instr), ans,
            named_relation(words(instr)[0]).unwrap().0, named_relation(words(instr)[0]).unwrap().1),
{
    lemma_reveal_compare_names();
    lemma_reveal_other_names();
    let op = words(instr)[0];
    assert(op.len() == 4);
    assert(op[0] == 'E' || op[0] == 'N' || op[0] == 'L' || op[0] == 'G');
    assert(!starts_with(op, "ADD"@)) by {
        if starts_with(op, "ADD"@) { assert(op.subrange(0, 3)[0] == op[0]); }
    }
    assert(!starts_with(op, "SUB"@)) by {
        if starts_with(op, "SUB"@) { assert(op.subrange(0, 3)[0] == op[0]); }
    }
    assert(!starts_with(op, "MUL"@)) by {
        if starts_with(op, "MUL"@) { assert(op.subrange(0, 3)[0] == op[0]); }
    }
    assert(!starts_with(op, "DIV"@)) by {
        if starts_with(op, "DIV"@) { assert(op.subrange(0, 3)[0] == op[0]); }
    }
    assert(op != "FL.i"@);
}

} // verus!
