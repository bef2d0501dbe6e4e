//! The machine as text for the front ends: the debugger window's register list, memory
//! view and instruction lines, and the terminal view's three panels.
//!
//! Floats are written by the host; a function given for that is asked once for each
//! float shown.
use vstd::prelude::*;
use crate::text::{int_text, nat_text, push_int, push_nat, push_all, push_str, string_of, string_views, chars_of};
use crate::vm::{named_view, parse_i32, parse_i32_exec, Answer, FloatTask, Value};

verus! {

// ---------------------------------------------------------------------------------
// Numbers
// ---------------------------------------------------------------------------------

/// The hexadecimal digit of `d < 16`, upper or lower case.
pub open spec fn hex_digit(d: nat, upper: bool) -> char {
    if d < 10 {
        ((d + 48) as u32) as char
    } else if upper {
        ((d + 55) as u32) as char
    } else {
        ((d + 87) as u32) as char
    }
}

/// The shortest hexadecimal numeral of `n`.
pub open spec fn hex_text(n: nat, upper: bool) -> Seq<char>
    decreases n,
{
    if n < 16 {
        seq![hex_digit(n, upper)]
    } else {
        hex_text(n / 16, upper).push(hex_digit(n % 16, upper))
    }
}

/// `s` with `fill` in front, to make it at least `width` long.
pub open spec fn pad_left(s: Seq<char>, width: nat, fill: char) -> Seq<char> {
    if s.len() >= width {
        s
    } else {
        Seq::new((width - s.len()) as nat, |i: int| fill) + s
    }
}

fn hex_digit_exec(d: u64, upper: bool) -> (c: char)
    requires
        d < 16,
    ensures
        c == hex_digit(d as nat, upper),
{
    if d < 10 {
        let x: u8 = (d + 48) as u8;
        x as char
    } else if upper {
        let x: u8 = (d + 55) as u8;
        x as char
    } else {
        let x: u8 = (d + 87) as u8;
        x as char
    }
}

/// Appends the hexadecimal numeral of `n` to `out`.
fn push_hex(out: &mut Vec<char>, n: u64, upper: bool)
    ensures
        final(out)@ == old(out)@ + hex_text(n as nat, upper),
    decreases n,
{
    if n >= 16 {
        push_hex(out, n / 16, upper);
    }
    out.push(hex_digit_exec(n % 16, upper));
    assert(n >= 16 ==> hex_text(n as nat, upper) == hex_text((n / 16) as nat, upper).push(hex_digit((n % 16) as nat, upper)));
}

/// Appends `s` to `out` with `fill` in front, to make it at least `width` long.
fn push_padded(out: &mut Vec<char>, s: &Vec<char>, width: usize, fill: char)
    ensures
        final(out)@ == old(out)@ + pad_left(s@, width as nat, fill),
{
    let ghost start = out@;
    if s.len() < width {
        let n = width - s.len();
        let mut i: usize = 0;
        while i < n
            invariant
                i <= n,
                out@ == start + Seq::new(i as nat, |k: int| fill),
            decreases n - i,
        {
            out.push(fill);
            i = i + 1;
            assert(out@ =~= start + Seq::new(i as nat, |k: int| fill));
        }
    }
    let ghost mid = out@;
    push_all(out, s);
    assert(out@ =~= start + pad_left(s@, width as nat, fill));
}

/// Appends `n` in hexadecimal, with zeros in front to make at least `width` digits.
fn push_hex_padded(out: &mut Vec<char>, n: u64, width: usize, upper: bool)
    ensures
        final(out)@ == old(out)@ + pad_left(hex_text(n as nat, upper), width as nat, '0'),
{
    let mut digits: Vec<char> = Vec::new();
    push_hex(&mut digits, n, upper);
    assert(digits@ =~= hex_text(n as nat, upper));
    push_padded(out, &digits, width, '0');
}

/// Appends `n` in decimal, with spaces in front to make it at least `width` long.
fn push_int_padded(out: &mut Vec<char>, n: i64, width: usize)
    ensures
        final(out)@ == old(out)@ + pad_left(int_text(n as int), width as nat, ' '),
{
    let mut digits: Vec<char> = Vec::new();
    push_int(&mut digits, n);
    assert(digits@ =~= int_text(n as int));
    push_padded(out, &digits, width, ' ');
}

/// A byte as the memory view shows it beside the numbers: itself when it is a visible
/// ASCII character, else a dot.
pub open spec fn shown_byte(b: u8) -> char {
    if 0x21 <= b <= 0x7E { (b as u32) as char } else { '.' }
}

fn shown_byte_exec(b: u8) -> (c: char)
    ensures
        c == shown_byte(b),
{
    if 0x21 <= b && b <= 0x7E { b as char } else { '.' }
}

// ---------------------------------------------------------------------------------
// The window's memory view
// ---------------------------------------------------------------------------------

/// The unsigned 32-bit word stored little-endian at `addr`: the bits of the float the
/// memory view shows beside the integer.
pub open spec fn read_u32(mem: Seq<u8>, addr: int) -> u32 {
    (mem[addr] as int + mem[addr + 1] as int * 0x100 + mem[addr + 2] as int * 0x1_0000
        + mem[addr + 3] as int * 0x100_0000) as u32
}

/// One cell of the byte grid: the byte at `a` in hexadecimal and a space, or three
/// spaces past the end of memory.
pub open spec fn byte_cell(mem: Seq<u8>, a: int) -> Seq<char> {
    if a >= mem.len() { "   "@ } else { pad_left(hex_text(mem[a] as nat, true), 2, '0') + " "@ }
}

/// The byte at `a` as a character, or a space past the end of memory.
pub open spec fn byte_char(mem: Seq<u8>, a: int) -> char {
    if a >= mem.len() { ' ' } else { shown_byte(mem[a]) }
}

/// The first `n` cells of the grid row at `addr`.
pub open spec fn byte_cells(mem: Seq<u8>, addr: int, n: nat) -> Seq<char>
    decreases n,
{
    if n == 0 { Seq::empty() } else { byte_cells(mem, addr, (n - 1) as nat) + byte_cell(mem, addr + n - 1) }
}

/// One row of the byte grid: address, sixteen bytes, and the same bytes as characters.
pub open spec fn byte_row(mem: Seq<u8>, addr: int) -> Seq<char> {
    pad_left(hex_text(addr as nat, true), 8, '0') + " │ "@ + byte_cells(mem, addr, 16) + "│ "@
        + Seq::new(16, |j: int| byte_char(mem, addr + j)) + "\n"@
}

/// The first `k` rows of the byte grid from `start`.
pub open spec fn byte_rows(mem: Seq<u8>, start: int, k: nat) -> Seq<char>
    decreases k,
{
    if k == 0 { Seq::empty() } else { byte_rows(mem, start, (k - 1) as nat) + byte_row(mem, start + 16 * (k - 1)) }
}

/// How many of the grid's four rows start inside memory.
pub open spec fn grid_rows(mem_len: int, start: int) -> nat {
    let n = mem_len - start;
    if n <= 0 { 0 } else if n > 48 { 4 } else { ((n + 15) / 16) as nat }
}

/// One row of the word table: address, the word as an integer in ten columns, and the
/// float text given for it.
pub open spec fn word_row(mem: Seq<u8>, addr: int, float: Seq<char>) -> Seq<char> {
    pad_left(hex_text(addr as nat, true), 8, '0') + " │ "@ + pad_left(int_text(crate::vm::read_i32(mem, addr) as int), 10, ' ')
        + " "@ + float + "\n"@
}

/// The first `k` rows of the word table from `start`, with the float texts `floats`.
pub open spec fn word_rows(mem: Seq<u8>, start: int, floats: Seq<Seq<char>>, k: nat) -> Seq<char>
    decreases k,
{
    if k == 0 { Seq::empty() } else { word_rows(mem, start, floats, (k - 1) as nat) + word_row(mem, start + 4 * (k - 1), floats[k - 1]) }
}

/// How many of the table's sixteen words lie wholly inside memory.
pub open spec fn word_count(mem_len: int, start: int) -> nat {
    let n = mem_len - start - 3;
    if n <= 0 { 0 } else if n > 60 { 16 } else { ((n + 3) / 4) as nat }
}

/// The memory view from `start`: a grid of up to 64 bytes, sixteen a row, and a table of
/// up to sixteen 32-bit words read as integers and as floats (`floats`, one per word).
pub open spec fn memory_view(mem: Seq<u8>, start: int, floats: Seq<Seq<char>>) -> Seq<char> {
    "Address  | 00 01 02 03 04 05 06 07 08 09 0A 0B 0C 0D 0E 0F | ASCII\n"@
        + "─────────┼─────────────────────────────────────────────────┼─────────────\n"@
        + byte_rows(mem, start, grid_rows(mem.len() as int, start))
        + "\n32-bit Values:\n"@
        + "Address  | Int32     Float32   \n"@
        + "─────────┼──────────────────────\n"@
        + word_rows(mem, start, floats, word_count(mem.len() as int, start))
}

/// `floats` are what `float_text` gave for the words of the table from `start`.
pub open spec fn floats_given<G: Fn(u32) -> String>(float_text: G, mem: Seq<u8>, start: int, floats: Seq<String>) -> bool {
    &&& floats.len() == word_count(mem.len() as int, start)
    &&& forall|k: int| 0 <= k < floats.len() ==> call_ensures(float_text, (read_u32(mem, start + 4 * k),), #[trigger] floats[k])
}

fn push_byte_row(out: &mut Vec<char>, mem: &Vec<u8>, addr: usize)
    requires
        addr < mem.len(),
    ensures
        final(out)@ == old(out)@ + byte_row(mem@, addr as int),
{
    let ghost start = out@;
    push_hex_padded(out, addr as u64, 8, true);
    push_str(out, " │ ");
    let ghost cells_start = out@;
    let mut chars: Vec<char> = Vec::new();
    let room = mem.len() - addr;
    let mut j: usize = 0;
    while j < 16
        invariant
            j <= 16,
            room == mem.len() - addr,
            addr < mem.len(),
            out@ == cells_start + byte_cells(mem@, addr as int, j as nat),
            chars@ == Seq::new(j as nat, |k: int| byte_char(mem@, addr + k)),
        decreases 16 - j,
    {
        if j >= room {
            push_str(out, "   ");
            chars.push(' ');
        } else {
            let b = mem[addr + j];
            push_hex_padded(out, b as u64, 2, true);
            push_str(out, " ");
            chars.push(shown_byte_exec(b));
        }
        j = j + 1;
        assert(chars@ =~= Seq::new(j as nat, |k: int| byte_char(mem@, addr + k)));
        assert(out@ =~= cells_start + byte_cells(mem@, addr as int, j as nat));
    }
    push_str(out, "│ ");
    push_all(out, &chars);
    push_str(out, "\n");
    assert(out@ =~= start + byte_row(mem@, addr as int));
}

fn read_u32_exec(mem: &Vec<u8>, addr: usize) -> (v: u32)
    requires
        addr + 3 < mem.len(),
    ensures
        v == read_u32(mem@, addr as int),
{
    let u: u64 = mem[addr] as u64 + mem[addr + 1] as u64 * 0x100 + mem[addr + 2] as u64 * 0x1_0000
        + mem[addr + 3] as u64 * 0x100_0000;
    u as u32
}

/// The memory view of `mem` from `start` (see `memory_view`); the text of each float is
/// asked of `float_text`, given the float's bits.
pub fn format_memory<G: Fn(u32) -> String>(mem: &Vec<u8>, start: usize, float_text: &G) -> (r: String)
    requires
        forall|b: u32| float_text.requires((b,)),
    ensures
        exists|floats: Seq<String>|
            #[trigger] floats_given(*float_text, mem@, start as int, floats)
                && r@ == memory_view(mem@, start as int, string_views(floats)),
{
    let mut out: Vec<char> = Vec::new();
    push_str(&mut out, "Address  | 00 01 02 03 04 05 06 07 08 09 0A 0B 0C 0D 0E 0F | ASCII\n");
    push_str(&mut out, "─────────┼─────────────────────────────────────────────────┼─────────────\n");
    let ghost head = out@;
    let len = mem.len();
    let rows: usize = if start >= len { 0 } else if len - start > 48 { 4 } else { (len - start + 15) / 16 };
    assert(rows == grid_rows(len as int, start as int));
    let mut row: usize = 0;
    while row < rows
        invariant
            row <= rows,
            rows <= 4,
            rows > 0 ==> start + 16 * (rows - 1) < len,
            len == mem.len(),
            out@ == head + byte_rows(mem@, start as int, row as nat),
        decreases rows - row,
    {
        push_byte_row(&mut out, mem, start + 16 * row);
        row = row + 1;
    }
    push_str(&mut out, "\n32-bit Values:\n");
    push_str(&mut out, "Address  | Int32     Float32   \n");
    push_str(&mut out, "─────────┼──────────────────────\n");
    let ghost table = out@;
    let ghost mut floats: Seq<String> = Seq::empty();
    let words: usize = if start >= len || len - start <= 3 { 0 } else if len - start - 3 > 60 { 16 } else { (len - start - 3 + 3) / 4 };
    assert(words == word_count(len as int, start as int));
    let mut k: usize = 0;
    while k < words
        invariant
            k <= words,
            words <= 16,
            words > 0 ==> start + 4 * (words - 1) + 3 < len,
            len == mem.len(),
            words == word_count(len as int, start as int),
            floats.len() == k,
            forall|i: int| 0 <= i < k ==> call_ensures(*float_text, (read_u32(mem@, start + 4 * i),), #[trigger] floats[i]),
            out@ == table + word_rows(mem@, start as int, string_views(floats), k as nat),
            forall|b: u32| float_text.requires((b,)),
        decreases words - k,
    {
        let addr = start + 4 * k;
        let ghost before = out@;
        push_hex_padded(&mut out, addr as u64, 8, true);
        push_str(&mut out, " │ ");
        let v = crate::vm::read_i32_exec(mem, addr);
        push_int_padded(&mut out, v as i64, 10);
        push_str(&mut out, " ");
        let bits = read_u32_exec(mem, addr);
        let t = float_text(bits);
        let cs = crate::text::chars_of(t.as_str());
        push_all(&mut out, &cs);
        push_str(&mut out, "\n");
        let ghost old_floats = floats;
        proof {
            floats = floats.push(t);
            assert(string_views(floats).take(k as int) =~= string_views(old_floats));
            lemma_word_rows_prefix(mem@, start as int, string_views(old_floats), string_views(floats), k as nat);
        }
        k = k + 1;
        assert(out@ =~= table + word_rows(mem@, start as int, string_views(floats), k as nat));
    }
    assert(floats_given(*float_text, mem@, start as int, floats));
    string_of(&out)
}

/// The rows before `k` read only the first `k` float texts.
proof fn lemma_word_rows_prefix(mem: Seq<u8>, start: int, a: Seq<Seq<char>>, b: Seq<Seq<char>>, k: nat)
    requires
        a.len() >= k,
        b.len() >= k,
        forall|i: int| 0 <= i < k ==> a[i] == b[i],
    ensures
        word_rows(mem, start, a, k) == word_rows(mem, start, b, k),
    decreases k,
{
    if k > 0 {
        lemma_word_rows_prefix(mem, start, a, b, (k - 1) as nat);
    }
}

// ---------------------------------------------------------------------------------
// Registers
// ---------------------------------------------------------------------------------

/// `s` without its leading `R`s.
pub open spec fn strip_rs(s: Seq<char>) -> Seq<char>
    decreases s.len(),
{
    if s.len() > 0 && s[0] == 'R' { strip_rs(s.drop_first()) } else { s }
}

/// The number a register's name sorts by in the window: what follows its leading `R`s
/// read as an `i32`, or 0 when that is no such number.
pub open spec fn register_key(name: Seq<char>) -> int {
    match parse_i32(strip_rs(name)) {
        Some(v) => v as int,
        None => 0,
    }
}

/// The registers are in order of their keys.
pub open spec fn sorted_by_key(regs: Seq<(Seq<char>, Value)>) -> bool {
    forall|i: int, j: int| 0 <= i < j < regs.len() ==> register_key(#[trigger] regs[i].0) <= register_key(#[trigger] regs[j].0)
}

/// The text of a host's answer, when it is one.
pub open spec fn answer_text(a: Answer) -> Seq<char> {
    match a {
        Answer::Text(t) => t@,
        _ => Seq::empty(),
    }
}

/// `t` is `v` as shown: an integer in decimal, a float as `host` writes it (nothing
/// when the host answers with something other than text).
pub open spec fn value_shown<F: Fn(&FloatTask) -> Answer>(host: F, v: Value, t: Seq<char>) -> bool {
    match v {
        Value::Int(i) => t == int_text(i as int),
        Value::Float(b) => exists|a: Answer| #[trigger] call_ensures(host, (&FloatTask::Show(b),), a) && t == answer_text(a),
    }
}

/// The register list: a line `name: value` for each register, in order.
pub open spec fn register_listing(regs: Seq<(Seq<char>, Value)>, texts: Seq<Seq<char>>) -> Seq<char>
    decreases regs.len(),
{
    if regs.len() == 0 {
        Seq::empty()
    } else {
        register_listing(regs.drop_last(), texts.drop_last()) + regs.last().0 + ": "@ + texts[regs.len() - 1] + "\n"@
    }
}

fn strip_rs_exec(s: &String) -> (r: String)
    ensures
        r@ == strip_rs(s@),
{
    let cs = chars_of(s.as_str());
    let mut i: usize = 0;
    assert(s@.skip(0) =~= s@);
    while i < cs.len() && cs[i] == 'R'
        invariant
            i <= cs.len(),
            cs@ == s@,
            strip_rs(s@) == strip_rs(s@.skip(i as int)),
        decreases cs.len() - i,
    {
        assert(s@.skip(i as int).drop_first() =~= s@.skip(i + 1));
        i = i + 1;
    }
    let mut rest: Vec<char> = Vec::new();
    let mut j: usize = i;
    while j < cs.len()
        invariant
            i <= j <= cs.len(),
            rest@ == cs@.subrange(i as int, j as int),
        decreases cs.len() - j,
    {
        rest.push(cs[j]);
        j = j + 1;
        assert(rest@ =~= cs@.subrange(i as int, j as int));
    }
    assert(rest@ =~= s@.skip(i as int));
    string_of(&rest)
}

fn register_key_exec(name: &String) -> (k: i32)
    ensures
        k as int == register_key(name@),
{
    let stripped = strip_rs_exec(name);
    match parse_i32_exec(&stripped) {
        Some(v) => v,
        None => 0,
    }
}

/// The registers in order of their keys (registers with equal keys in any order).
fn sort_registers(regs: &Vec<(String, Value)>) -> (r: Vec<(String, Value)>)
    ensures
        named_view(r@).to_multiset() == named_view(regs@).to_multiset(),
        sorted_by_key(named_view(r@)),
{
    let mut out: Vec<(String, Value)> = Vec::new();
    let mut keys: Vec<i32> = Vec::new();
    let ghost all = named_view(regs@);
    assert(named_view(out@) =~= all.take(0));
    for i in 0..regs.len()
        invariant
            all == named_view(regs@),
            keys@.len() == out@.len(),
            forall|j: int| 0 <= j < keys@.len() ==> keys@[j] as int == register_key(#[trigger] named_view(out@)[j].0),
            forall|a: int, b: int| 0 <= a < b < keys@.len() ==> keys@[a] <= keys@[b],
            named_view(out@).to_multiset() == all.take(i as int).to_multiset(),
    {
        let name = regs[i].0.clone();
        let value = regs[i].1;
        let k = register_key_exec(&name);
        let mut p: usize = 0;
        while p < keys.len() && keys[p] <= k
            invariant
                p <= keys@.len(),
                forall|q: int| 0 <= q < p ==> keys@[q] <= k,
            decreases keys.len() - p,
        {
            p = p + 1;
        }
        let ghost before = named_view(out@);
        let ghost before_keys = keys@;
        out.insert(p, (name, value));
        keys.insert(p, k);
        proof {
            let x = (regs@[i as int].0@, value);
            assert(named_view(out@) =~= before.insert(p as int, x));
            assert(all.take(i + 1) =~= all.take(i as int).push(all[i as int]));
            assert(all[i as int] == x);
            vstd::seq_lib::to_multiset_insert(before, p as int, x);
            vstd::seq_lib::to_multiset_build(all.take(i as int), x);
            assert forall|a: int, b: int| 0 <= a < b < keys@.len() implies keys@[a] <= keys@[b] by {
                if p < before_keys.len() {
                    assert(before_keys[p as int] > k);
                }
            }
        }
    }
    assert(all.take(regs.len() as int) =~= all);
    assert forall|a: int, b: int| 0 <= a < b < named_view(out@).len() implies
        register_key(#[trigger] named_view(out@)[a].0) <= register_key(#[trigger] named_view(out@)[b].0) by {
        assert(keys@[a] <= keys@[b]);
    }
    out
}

/// `v` as shown, asking `host` to write a float.
fn push_value<F: Fn(&FloatTask) -> Answer>(out: &mut Vec<char>, v: Value, host: &F) -> (t: Ghost<Seq<char>>)
    requires
        forall|x: &FloatTask| host.requires((x,)),
    ensures
        final(out)@ == old(out)@ + t@,
        value_shown(*host, v, t@),
{
    match v {
        Value::Int(i) => {
            push_int(out, i as i64);
            Ghost(int_text(i as int))
        },
        Value::Float(b) => {
            let task = FloatTask::Show(b);
            let a = host(&task);
            let ghost t = answer_text(a);
            match a {
                Answer::Text(s) => {
                    let cs = chars_of(s.as_str());
                    push_all(out, &cs);
                },
                _ => {},
            }
            assert(call_ensures(*host, (&FloatTask::Show(b),), a));
            Ghost(t)
        },
    }
}

/// The window's register list (see `register_listing`): the registers in order of
/// their numbers, floats written by `host`.
pub fn format_registers<F: Fn(&FloatTask) -> Answer>(regs: &Vec<(String, Value)>, host: &F) -> (r: String)
    requires
        forall|x: &FloatTask| host.requires((x,)),
    ensures
        exists|sorted: Seq<(Seq<char>, Value)>, texts: Seq<Seq<char>>|
            #[trigger] register_listing(sorted, texts) == r@
                && sorted.to_multiset() == named_view(regs@).to_multiset()
                && sorted_by_key(sorted)
                && texts.len() == sorted.len()
                && forall|i: int| 0 <= i < texts.len() ==> value_shown(*host, sorted[i].1, #[trigger] texts[i]),
{
    let sorted = sort_registers(regs);
    let ghost sv = named_view(sorted@);
    let ghost mut texts: Seq<Seq<char>> = Seq::empty();
    let mut out: Vec<char> = Vec::new();
    for i in 0..sorted.len()
        invariant
            sv == named_view(sorted@),
            texts.len() == i,
            forall|j: int| 0 <= j < i ==> value_shown(*host, sv[j].1, #[trigger] texts[j]),
            out@ == register_listing(sv.take(i as int), texts),
            forall|x: &FloatTask| host.requires((x,)),
    {
        let ghost before = out@;
        let cs = chars_of(sorted[i].0.as_str());
        push_all(&mut out, &cs);
        push_str(&mut out, ": ");
        let t = push_value(&mut out, sorted[i].1, host);
        push_str(&mut out, "\n");
        proof {
            let old_texts = texts;
            texts = texts.push(t@);
            assert(sv.take(i + 1).drop_last() =~= sv.take(i as int));
            assert(texts.drop_last() =~= old_texts);
            assert(out@ =~= register_listing(sv.take(i + 1), texts));
        }
    }
    assert(sv.take(sorted.len() as int) =~= sv);
    string_of(&out)
}

// ---------------------------------------------------------------------------------
// The terminal view
// ---------------------------------------------------------------------------------

/// `a` comes before `b` or equals it, comparing character by character (as `str`s are
/// ordered).
pub open spec fn text_le(a: Seq<char>, b: Seq<char>) -> bool
    decreases a.len(),
{
    if a.len() == 0 {
        true
    } else if b.len() == 0 {
        false
    } else if a[0] != b[0] {
        a[0] < b[0]
    } else {
        text_le(a.drop_first(), b.drop_first())
    }
}

pub open spec fn text_sorted(s: Seq<Seq<char>>) -> bool {
    forall|i: int, j: int| 0 <= i < j < s.len() ==> text_le(#[trigger] s[i], #[trigger] s[j])
}

proof fn lemma_text_le_total(a: Seq<char>, b: Seq<char>)
    ensures
        text_le(a, b) || text_le(b, a),
    decreases a.len(),
{
    if a.len() > 0 && b.len() > 0 && a[0] == b[0] {
        lemma_text_le_total(a.drop_first(), b.drop_first());
    }
}

proof fn lemma_text_le_refl(a: Seq<char>)
    ensures
        text_le(a, a),
    decreases a.len(),
{
    if a.len() > 0 {
        lemma_text_le_refl(a.drop_first());
    }
}

proof fn lemma_text_le_trans(a: Seq<char>, b: Seq<char>, c: Seq<char>)
    requires
        text_le(a, b),
        text_le(b, c),
    ensures
        text_le(a, c),
    decreases a.len(),
{
    if a.len() > 0 && b.len() > 0 && c.len() > 0 && a[0] == b[0] && b[0] == c[0] {
        lemma_text_le_trans(a.drop_first(), b.drop_first(), c.drop_first());
    }
}

fn text_le_exec(a: &Vec<char>, b: &Vec<char>) -> (r: bool)
    ensures
        r == text_le(a@, b@),
{
    let mut i: usize = 0;
    assert(a@.skip(0) =~= a@);
    assert(b@.skip(0) =~= b@);
    while i < a.len() && i < b.len() && a[i] == b[i]
        invariant
            i <= a.len(),
            i <= b.len(),
            text_le(a@, b@) == text_le(a@.skip(i as int), b@.skip(i as int)),
        decreases a.len() - i,
    {
        assert(a@.skip(i as int).drop_first() =~= a@.skip(i + 1));
        assert(b@.skip(i as int).drop_first() =~= b@.skip(i + 1));
        i = i + 1;
    }
    if i == a.len() {
        true
    } else if i == b.len() {
        false
    } else {
        a[i] < b[i]
    }
}

/// The lines in text order (equal lines next to each other).
fn sort_lines(lines: Vec<String>) -> (r: Vec<String>)
    ensures
        string_views(r@).to_multiset() == string_views(lines@).to_multiset(),
        text_sorted(string_views(r@)),
{
    let ghost all = string_views(lines@);
    let mut out: Vec<String> = Vec::new();
    let mut chars: Vec<Vec<char>> = Vec::new();
    assert(string_views(out@) =~= all.take(0));
    for i in 0..lines.len()
        invariant
            all == string_views(lines@),
            chars@.len() == out@.len(),
            forall|j: int| 0 <= j < chars@.len() ==> (#[trigger] chars@[j])@ == string_views(out@)[j],
            text_sorted(string_views(out@)),
            string_views(out@).to_multiset() == all.take(i as int).to_multiset(),
    {
        let line = lines[i].clone();
        let cs = chars_of(line.as_str());
        let mut p: usize = 0;
        while p < chars.len() && text_le_exec(&chars[p], &cs)
            invariant
                p <= chars@.len(),
                forall|q: int| 0 <= q < p ==> text_le(#[trigger] string_views(out@)[q], cs@),
                chars@.len() == out@.len(),
                forall|j: int| 0 <= j < chars@.len() ==> (#[trigger] chars@[j])@ == string_views(out@)[j],
            decreases chars@.len() - p,
        {
            p = p + 1;
        }
        let ghost before = string_views(out@);
        let ghost x = line@;
        proof {
            if p < before.len() {
                lemma_text_le_total(before[p as int], x);
            }
            assert forall|a: int, b: int| 0 <= a < b < before.len() + 1 implies
                text_le(#[trigger] before.insert(p as int, x)[a], #[trigger] before.insert(p as int, x)[b]) by {
                let s = before.insert(p as int, x);
                if b == p {
                } else if a == p {
                    if b - 1 == p {
                        lemma_text_le_refl(before[p as int]);
                    }
                    lemma_text_le_trans(x, before[p as int], before[b - 1]);
                } else if a < p && b > p {
                    assert(text_le(before[a], before[b - 1]));
                } else if a > p {
                    assert(text_le(before[a - 1], before[b - 1]));
                } else {
                    assert(text_le(before[a], before[b]));
                }
            }
            vstd::seq_lib::to_multiset_insert(before, p as int, x);
            vstd::seq_lib::to_multiset_build(all.take(i as int), x);
            assert(all.take(i + 1) =~= all.take(i as int).push(x));
        }
        out.insert(p, line);
        chars.insert(p, cs);
        assert(string_views(out@) =~= before.insert(p as int, x));
    }
    assert(all.take(lines.len() as int) =~= all);
    out
}

/// The terminal view's register panel: `name: value` for each register.
pub open spec fn register_lines(regs: Seq<(Seq<char>, Value)>, texts: Seq<Seq<char>>) -> Seq<Seq<char>> {
    Seq::new(regs.len(), |i: int| regs[i].0 + ": "@ + texts[i])
}

/// The terminal view's program panel: each instruction, the next one marked.
pub open spec fn program_panel(program: Seq<Seq<char>>, pc: int) -> Seq<Seq<char>> {
    Seq::new(program.len(), |i: int| (if i == pc { "> "@ } else { "  "@ }) + program[i])
}

/// The memory panel's line for the word at `addr`.
pub open spec fn word_line(mem: Seq<u8>, addr: int) -> Seq<char> {
    "0x"@ + pad_left(hex_text(addr as nat, false), 2, '0') + ": "@ + int_text(crate::vm::read_i32(mem, addr) as int)
}

/// The memory panel's lines for the words at multiples of four below `end` that lie
/// wholly inside memory and are not zero.
pub open spec fn memory_panel(mem: Seq<u8>, end: int) -> Seq<Seq<char>>
    decreases end,
{
    if end <= 0 {
        Seq::empty()
    } else {
        let a = 4 * ((end - 1) / 4);
        let before = memory_panel(mem, a);
        if a + 3 < mem.len() && crate::vm::read_i32(mem, a) != 0 { before.push(word_line(mem, a)) } else { before }
    }
}

/// The terminal view's three panels.
pub struct Panels {
    pub registers: Vec<String>,
    pub program: Vec<String>,
    pub memory: Vec<String>,
}

/// The terminal view of a machine with registers `regs`, memory `mem`, next instruction
/// `pc` and program `program`: the registers as `name: value` lines in text order
/// (floats written by `host`), the program with the next instruction marked `> `, and
/// the non-zero words of memory as `0xNN: value`.
pub fn terminal_panels<F: Fn(&FloatTask) -> Answer>(
    regs: &Vec<(String, Value)>,
    mem: &Vec<u8>,
    pc: usize,
    program: &Vec<String>,
    host: &F,
) -> (r: Panels)
    requires
        forall|x: &FloatTask| host.requires((x,)),
    ensures
        exists|texts: Seq<Seq<char>>|
            #[trigger] register_lines(named_view(regs@), texts).to_multiset() == string_views(r.registers@).to_multiset()
                && texts.len() == regs@.len()
                && forall|i: int| 0 <= i < texts.len() ==> value_shown(*host, regs@[i].1, #[trigger] texts[i]),
        text_sorted(string_views(r.registers@)),
        string_views(r.program@) == program_panel(string_views(program@), pc as int),
        string_views(r.memory@) == memory_panel(mem@, mem@.len() as int),
{
    let ghost rv = named_view(regs@);
    let ghost mut texts: Seq<Seq<char>> = Seq::empty();
    let mut lines: Vec<String> = Vec::new();
    for i in 0..regs.len()
        invariant
            rv == named_view(regs@),
            texts.len() == i,
            forall|j: int| 0 <= j < i ==> value_shown(*host, regs@[j].1, #[trigger] texts[j]),
            string_views(lines@) == register_lines(rv.take(i as int), texts),
            forall|x: &FloatTask| host.requires((x,)),
    {
        let mut out: Vec<char> = chars_of(regs[i].0.as_str());
        push_str(&mut out, ": ");
        let ghost name = regs@[i as int].0@;
        let ghost mid = out@;
        let t = push_value(&mut out, regs[i].1, host);
        let ghost before = string_views(lines@);
        let line = string_of(&out);
        lines.push(line);
        proof {
            let old_texts = texts;
            texts = texts.push(t@);
            assert(rv[i as int].0 == name);
            assert(line@ == name + ": "@ + t@);
            assert(string_views(lines@) =~= before.push(line@));
            assert forall|j: int| 0 <= j < i + 1 implies #[trigger] string_views(lines@)[j] == register_lines(rv.take(i + 1), texts)[j] by {
                if j < i {
                    assert(string_views(lines@)[j] == before[j]);
                    assert(before[j] == register_lines(rv.take(i as int), old_texts)[j]);
                }
            }
            assert(string_views(lines@) =~= register_lines(rv.take(i + 1), texts));
        }
    }
    assert(rv.take(regs.len() as int) =~= rv);
    let registers = sort_lines(lines);

    let mut prog: Vec<String> = Vec::new();
    let ghost pv = string_views(program@);
    for i in 0..program.len()
        invariant
            pv == string_views(program@),
            string_views(prog@) == program_panel(pv, pc as int).take(i as int),
    {
        let mut out: Vec<char> = Vec::new();
        if i == pc {
            push_str(&mut out, "> ");
        } else {
            push_str(&mut out, "  ");
        }
        let cs = chars_of(program[i].as_str());
        push_all(&mut out, &cs);
        let ghost before = string_views(prog@);
        let line = string_of(&out);
        prog.push(line);
        assert(line@ == (if i == pc { "> "@ } else { "  "@ }) + pv[i as int]);
        assert(string_views(prog@) =~= before.push(line@));
        assert(string_views(prog@) =~= program_panel(pv, pc as int).take(i + 1));
    }
    assert(program_panel(pv, pc as int).take(program.len() as int) =~= program_panel(pv, pc as int));

    let mut words: Vec<String> = Vec::new();
    let len = mem.len();
    let mut a: usize = 0;
    assert(string_views(words@) =~= memory_panel(mem@, 0));
    while len - a >= 4
        invariant
            a % 4 == 0,
            a <= len,
            len == mem.len(),
            string_views(words@) == memory_panel(mem@, a as int),
        decreases len - a,
    {
        let ghost before = string_views(words@);
        let v = crate::vm::read_i32_exec(mem, a);
        if v != 0 {
            let mut out: Vec<char> = Vec::new();
            push_str(&mut out, "0x");
            push_hex_padded(&mut out, a as u64, 2, false);
            push_str(&mut out, ": ");
            push_int(&mut out, v as i64);
            words.push(string_of(&out));
            assert(string_views(words@) =~= before.push(word_line(mem@, a as int)));
        }
        assert(4 * ((a + 4 - 1) / 4) == a);
        a = a + 4;
    }
    if a < len {
        assert(4 * ((len - 1) / 4) == a);
    }
    Panels { registers, program: prog, memory: words }
}

// ---------------------------------------------------------------------------------
// The state log
// ---------------------------------------------------------------------------------

/// The log's line of the bytes from `addr` (up to sixteen, those inside memory).
pub open spec fn log_row(mem: Seq<u8>, addr: int) -> Seq<char> {
    pad_left(hex_text(addr as nat, false), 8, '0') + ":"@ + log_bytes(mem, addr, 16) + "\n"@
}

/// The first `n` of the sixteen bytes from `addr`, each after a space, while inside
/// memory.
pub open spec fn log_bytes(mem: Seq<u8>, addr: int, n: nat) -> Seq<char>
    decreases n,
{
    if n == 0 {
        Seq::empty()
    } else {
        let a = addr + n - 1;
        log_bytes(mem, addr, (n - 1) as nat)
            + (if a < mem.len() { " "@ + pad_left(hex_text(mem[a] as nat, false), 2, '0') } else { Seq::empty() })
    }
}

/// The first `k` rows of the log's memory dump.
pub open spec fn log_rows(mem: Seq<u8>, k: nat) -> Seq<char>
    decreases k,
{
    if k == 0 { Seq::empty() } else { log_rows(mem, (k - 1) as nat) + log_row(mem, 16 * (k - 1)) }
}

/// The register lines of the log: `  name: value` for each register, in order.
pub open spec fn log_registers(regs: Seq<(Seq<char>, Value)>, texts: Seq<Seq<char>>) -> Seq<char>
    decreases regs.len(),
{
    if regs.len() == 0 {
        Seq::empty()
    } else {
        log_registers(regs.drop_last(), texts.drop_last()) + "  "@ + regs.last().0 + ": "@ + texts[regs.len() - 1] + "\n"@
    }
}

/// The state log: the next instruction, the registers in order, and the first 64 bytes
/// of memory, sixteen a row.
pub open spec fn state_log(regs: Seq<(Seq<char>, Value)>, texts: Seq<Seq<char>>, mem: Seq<u8>, pc: usize) -> Seq<char> {
    let shown = if mem.len() < 64 { mem.len() as int } else { 64 };
    "\n=== VM State ===\n"@ + "PC: "@ + nat_text(pc as nat) + "\n"@ + "Registers:\n"@
        + log_registers(regs, texts)
        + "Memory (first 64 bytes):\n"@
        + log_rows(mem, ((shown + 15) / 16) as nat)
        + "===============\n\n"@
}

/// The state log of a machine with registers `regs`, memory `mem` and next
/// instruction `pc` (see `state_log`); floats written by `host`.
pub fn format_state_log<F: Fn(&FloatTask) -> Answer>(regs: &Vec<(String, Value)>, mem: &Vec<u8>, pc: usize, host: &F) -> (r: String)
    requires
        forall|x: &FloatTask| host.requires((x,)),
    ensures
        exists|texts: Seq<Seq<char>>|
            #[trigger] state_log(named_view(regs@), texts, mem@, pc) == r@
                && texts.len() == regs@.len()
                && forall|i: int| 0 <= i < texts.len() ==> value_shown(*host, regs@[i].1, #[trigger] texts[i]),
{
    let mut out: Vec<char> = Vec::new();
    push_str(&mut out, "\n=== VM State ===\n");
    push_str(&mut out, "PC: ");
    push_nat(&mut out, pc as u64);
    push_str(&mut out, "\n");
    push_str(&mut out, "Registers:\n");
    let ghost head = out@;
    let ghost rv = named_view(regs@);
    let ghost mut texts: Seq<Seq<char>> = Seq::empty();
    for i in 0..regs.len()
        invariant
            rv == named_view(regs@),
            texts.len() == i,
            forall|j: int| 0 <= j < i ==> value_shown(*host, regs@[j].1, #[trigger] texts[j]),
            out@ == head + log_registers(rv.take(i as int), texts),
            forall|x: &FloatTask| host.requires((x,)),
    {
        push_str(&mut out, "  ");
        let cs = chars_of(regs[i].0.as_str());
        push_all(&mut out, &cs);
        push_str(&mut out, ": ");
        let t = push_value(&mut out, regs[i].1, host);
        push_str(&mut out, "\n");
        proof {
            let old_texts = texts;
            texts = texts.push(t@);
            assert(rv.take(i + 1).drop_last() =~= rv.take(i as int));
            assert(texts.drop_last() =~= old_texts);
            assert(out@ =~= head + log_registers(rv.take(i + 1), texts));
        }
    }
    assert(rv.take(regs.len() as int) =~= rv);
    push_str(&mut out, "Memory (first 64 bytes):\n");
    let ghost dump = out@;
    let len = mem.len();
    let shown: usize = if len < 64 { len } else { 64 };
    let rows: usize = (shown + 15) / 16;
    let mut k: usize = 0;
    while k < rows
        invariant
            k <= rows,
            rows <= 4,
            len == mem.len(),
            rows > 0 ==> 16 * (rows - 1) < len,
            out@ == dump + log_rows(mem@, k as nat),
        decreases rows - k,
    {
        let addr = 16 * k;
        let ghost row_start = out@;
        push_hex_padded(&mut out, addr as u64, 8, false);
        push_str(&mut out, ":");
        let ghost bytes_start = out@;
        let mut j: usize = 0;
        while j < 16
            invariant
                j <= 16,
                addr == 16 * k,
                addr < len,
                len == mem.len(),
                out@ == bytes_start + log_bytes(mem@, addr as int, j as nat),
            decreases 16 - j,
        {
            if j < len - addr {
                push_str(&mut out, " ");
                push_hex_padded(&mut out, mem[addr + j] as u64, 2, false);
            }
            j = j + 1;
            assert(out@ =~= bytes_start + log_bytes(mem@, addr as int, j as nat));
        }
        push_str(&mut out, "\n");
        k = k + 1;
        assert(out@ =~= dump + log_rows(mem@, k as nat));
    }
    push_str(&mut out, "===============\n\n");
    assert(out@ =~= state_log(rv, texts, mem@, pc));
    string_of(&out)
}

} // verus!
