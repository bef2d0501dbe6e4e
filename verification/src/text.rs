//! Character-level helpers shared by the lexer, parser, code generator and machine.
use vstd::prelude::*;

verus! {

/// The decimal digit character for `d < 10`.
pub open spec fn digit_char(d: nat) -> char {
    if d == 0 { '0' } else if d == 1 { '1' } else if d == 2 { '2' } else if d == 3 { '3' }
    else if d == 4 { '4' } else if d == 5 { '5' } else if d == 6 { '6' } else if d == 7 { '7' }
    else if d == 8 { '8' } else { '9' }
}

/// The value of a decimal digit character (only meaningful for `'0'..='9'`).
pub open spec fn char_digit(c: char) -> nat {
    (c as u32 - '0' as u32) as nat
}

pub open spec fn is_digit(c: char) -> bool {
    '0' <= c && c <= '9'
}

/// The shortest decimal numeral of `n`.
pub open spec fn nat_text(n: nat) -> Seq<char>
    decreases n,
{
    if n < 10 {
        seq![digit_char(n)]
    } else {
        nat_text(n / 10).push(digit_char(n % 10))
    }
}

/// The decimal numeral of `i`, with a leading `-` when negative.
pub open spec fn int_text(i: int) -> Seq<char> {
    if i < 0 {
        seq!['-'] + nat_text((-i) as nat)
    } else {
        nat_text(i as nat)
    }
}

/// `items` joined with `sep` between consecutive items.
pub open spec fn join(items: Seq<Seq<char>>, sep: Seq<char>) -> Seq<char>
    decreases items.len(),
{
    if items.len() == 0 {
        Seq::empty()
    } else if items.len() == 1 {
        items[0]
    } else {
        join(items.drop_last(), sep) + sep + items.last()
    }
}

/// The views of a sequence of strings.
pub open spec fn string_views(v: Seq<String>) -> Seq<Seq<char>> {
    v.map_values(|s: String| s@)
}

/// Appends one character to a `String` (`String::push`).
#[verifier::external_body]
pub fn push_char(s: &mut String, c: char)
    ensures
        final(s)@ == old(s)@.push(c),
{
    s.push(c);
}

/// The characters of `s`, in order.
pub fn chars_of(s: &str) -> (r: Vec<char>)
    ensures
        r@ == s@,
{
    let mut r: Vec<char> = Vec::new();
    for c in it: s.chars()
        invariant
            r@ == it.seq().take(it.index() as int),
    {
        r.push(c);
    }
    r
}

/// The string whose characters are `v`.
pub fn string_of(v: &Vec<char>) -> (r: String)
    ensures
        r@ == v@,
{
    let mut r = String::new();
    for i in 0..v.len()
        invariant
            r@ == v@.take(i as int),
    {
        push_char(&mut r, v[i]);
        assert(v@.take(i + 1) == v@.take(i as int).push(v@[i as int]));
    }
    assert(v@.take(v.len() as int) == v@);
    r
}

/// Appends the characters of `s` to `out`.
pub fn push_all(out: &mut Vec<char>, s: &Vec<char>)
    ensures
        final(out)@ == old(out)@ + s@,
{
    for i in 0..s.len()
        invariant
            out@ == old(out)@ + s@.take(i as int),
    {
        out.push(s[i]);
        assert(s@.take(i + 1) == s@.take(i as int).push(s@[i as int]));
    }
    assert(s@.take(s.len() as int) == s@);
}

/// Appends the characters of `s` to `out`.
pub fn push_str(out: &mut Vec<char>, s: &str)
    ensures
        final(out)@ == old(out)@ + s@,
{
    let cs = chars_of(s);
    push_all(out, &cs);
}

/// The digit character of `d`.
pub fn digit(d: u64) -> (c: char)
    requires
        d < 10,
    ensures
        c == digit_char(d as nat),
{
    if d == 0 { '0' } else if d == 1 { '1' } else if d == 2 { '2' } else if d == 3 { '3' }
    else if d == 4 { '4' } else if d == 5 { '5' } else if d == 6 { '6' } else if d == 7 { '7' }
    else if d == 8 { '8' } else { '9' }
}

/// Appends the decimal numeral of `n` to `out`.
pub fn push_nat(out: &mut Vec<char>, n: u64)
    ensures
        final(out)@ == old(out)@ + nat_text(n as nat),
    decreases n,
{
    if n >= 10 {
        push_nat(out, n / 10);
    }
    out.push(digit(n % 10));
    assert(n >= 10 ==> nat_text(n as nat) == nat_text((n / 10) as nat).push(digit_char((n % 10) as nat)));
}

/// Appends the decimal numeral of `n` (with `-` when negative) to `out`.
pub fn push_int(out: &mut Vec<char>, n: i64)
    ensures
        final(out)@ == old(out)@ + int_text(n as int),
{
    if n < 0 {
        out.push('-');
        let m: u64 = (0i128 - n as i128) as u64;
        push_nat(out, m);
    } else {
        push_nat(out, n as u64);
    }
}

/// Appends the decimal numeral of `-n` (with `-` when negative) to `out`.
pub fn push_neg_int(out: &mut Vec<char>, n: i64)
    ensures
        final(out)@ == old(out)@ + int_text(-(n as int)),
{
    if n > 0 {
        out.push('-');
        let ghost mid = out@;
        push_nat(out, n as u64);
        assert(out@ =~= old(out)@ + (seq!['-'] + nat_text(n as nat)));
    } else {
        let m: u64 = (0i128 - n as i128) as u64;
        push_nat(out, m);
    }
}

/// Appends the characters of `items` to `out`, with `sep` between consecutive items.
pub fn push_joined(out: &mut Vec<char>, items: &Vec<String>, sep: &str)
    ensures
        final(out)@ == old(out)@ + join(string_views(items@), sep@),
{
    let ghost views = string_views(items@);
    let ghost start = out@;
    for i in 0..items.len()
        invariant
            views == string_views(items@),
            out@ == start + join(views.take(i as int), sep@),
    {
        let ghost before = out@;
        let cs = chars_of(items[i].as_str());
        if i > 0 {
            push_str(out, sep);
        }
        push_all(out, &cs);
        assert(views.take(i + 1).drop_last() == views.take(i as int));
        assert(views.take(i + 1).last() == items@[i as int]@);
        assert(i == 0 ==> views.take(i + 1).len() == 1 && views.take(i + 1)[0] == items@[i as int]@);
    }
    assert(views.take(items.len() as int) == views);
}

/// `items` joined with `sep` between consecutive items.
pub fn join_strings(items: &Vec<String>, sep: &str) -> (r: String)
    ensures
        r@ == join(string_views(items@), sep@),
{
    let mut v: Vec<char> = Vec::new();
    push_joined(&mut v, items, sep);
    string_of(&v)
}


/// The number of bytes of the UTF-8 encoding of `s`.
pub open spec fn byte_len(s: Seq<char>) -> nat {
    vstd::utf8::encode_utf8(s).len()
}

/// The length of `s` in bytes (`str::len`).
pub fn byte_count(s: &String) -> (n: usize)
    ensures
        n == byte_len(s@) as usize,
{
    s.as_str().len()
}

/// An owned copy of `s`.
pub fn owned(s: &str) -> (r: String)
    ensures
        r@ == s@,
{
    let v = chars_of(s);
    string_of(&v)
}

/// A copy of `v`.
pub fn copy_strings(v: &Vec<String>) -> (r: Vec<String>)
    ensures
        string_views(r@) == string_views(v@),
{
    let mut r: Vec<String> = Vec::new();
    for i in 0..v.len()
        invariant
            string_views(r@) == string_views(v@).take(i as int),
    {
        let s = v[i].clone();
        let ghost before = string_views(r@);
        r.push(s);
        assert(string_views(r@) =~= before.push(v@[i as int]@));
        assert(string_views(v@).take(i + 1) =~= string_views(v@).take(i as int).push(v@[i as int]@));
    }
    assert(string_views(v@).take(v.len() as int) =~= string_views(v@));
    r
}

}
