//! Decimal numbers: the values of real literals, kept exactly as their digits.
use vstd::prelude::*;
use crate::text::{digit_char, char_digit, is_digit, chars_of, digit, push_nat, nat_text};

verus! {

/// The abstract value of a `Real`: a sign and the digits before and after the point,
/// without leading zeros before the point or trailing zeros after it.
pub struct RealV {
    pub negative: bool,
    pub whole: Seq<u8>,
    pub frac: Seq<u8>,
}

/// A decimal number, held exactly as its digits.
#[derive(Debug)]
pub struct Real {
    negative: bool,
    whole: Vec<u8>,
    frac: Vec<u8>,
}

/// Every entry of `ds` is a decimal digit.
pub open spec fn all_digits(ds: Seq<u8>) -> bool {
    forall|i: int| 0 <= i < ds.len() ==> ds[i] < 10
}

/// `v` is in canonical form.
pub open spec fn real_wf(v: RealV) -> bool {
    &&& all_digits(v.whole)
    &&& all_digits(v.frac)
    &&& (v.whole.len() == 0 || v.whole[0] != 0)
    &&& (v.frac.len() == 0 || v.frac.last() != 0)
}

impl View for Real {
    type V = RealV;

    closed spec fn view(&self) -> RealV {
        RealV { negative: self.negative, whole: self.whole@, frac: self.frac@ }
    }
}

/// The digits of `ds` with leading zeros removed.
pub open spec fn strip_leading(ds: Seq<u8>) -> Seq<u8>
    decreases ds.len(),
{
    if ds.len() > 0 && ds[0] == 0 { strip_leading(ds.drop_first()) } else { ds }
}

/// The digits of `ds` with trailing zeros removed.
pub open spec fn strip_trailing(ds: Seq<u8>) -> Seq<u8>
    decreases ds.len(),
{
    if ds.len() > 0 && ds.last() == 0 { strip_trailing(ds.drop_last()) } else { ds }
}

/// The digit values of the characters `cs`.
pub open spec fn digit_values(cs: Seq<char>) -> Seq<u8> {
    cs.map_values(|c: char| char_digit(c) as u8)
}

/// The number of decimal digits in `s` starting at `i`.
pub open spec fn count_digits_from(s: Seq<char>, i: int) -> nat
    decreases s.len() - i,
{
    if 0 <= i < s.len() && is_digit(s[i]) { 1 + count_digits_from(s, i + 1) } else { 0 }
}

/// The value of the text `-?[0-9]+(\.[0-9]+)?`, or `None` for any other text.
pub open spec fn parse_real(s: Seq<char>) -> Option<RealV> {
    let neg = s.len() > 0 && s[0] == '-';
    let b: int = if neg { 1 } else { 0 };
    let d = count_digits_from(s, b);
    let e = b + d;
    if d == 0 {
        None
    } else if e == s.len() {
        Some(RealV { negative: neg, whole: strip_leading(digit_values(s.subrange(b, e))), frac: Seq::empty() })
    } else if s[e] == '.' && count_digits_from(s, e + 1) >= 1 && e + 1 + count_digits_from(s, e + 1) == s.len() {
        Some(RealV {
            negative: neg,
            whole: strip_leading(digit_values(s.subrange(b, e))),
            frac: strip_trailing(digit_values(s.subrange(e + 1, s.len() as int))),
        })
    } else {
        None
    }
}

/// The value of a sequence of decimal digits, most significant first.
pub open spec fn digits_value(ds: Seq<u8>) -> nat
    decreases ds.len(),
{
    if ds.len() == 0 { 0 } else { digits_value(ds.drop_last()) * 10 + ds.last() as nat }
}

/// The digits of `n` without leading zeros (empty for zero).
pub open spec fn nat_digits(n: nat) -> Seq<u8>
    decreases n,
{
    if n == 0 { Seq::empty() } else { nat_digits(n / 10).push((n % 10) as u8) }
}

/// The decimal value of the integer `i`.
pub open spec fn int_real(i: int) -> RealV {
    RealV { negative: i < 0, whole: nat_digits(if i < 0 { (-i) as nat } else { i as nat }), frac: Seq::empty() }
}

/// `v` is zero (of either sign).
pub open spec fn real_is_zero(v: RealV) -> bool {
    v.whole.len() == 0 && v.frac.len() == 0
}

/// `v` is below zero.
pub open spec fn real_is_negative(v: RealV) -> bool {
    v.negative && !real_is_zero(v)
}

/// The digit characters of `ds`.
pub open spec fn digits_text(ds: Seq<u8>) -> Seq<char> {
    ds.map_values(|d: u8| digit_char(d as nat))
}

/// The shortest text of `v`: sign, whole part (`0` when empty), and the fraction after a
/// point when there is one.
pub open spec fn real_text(v: RealV) -> Seq<char> {
    (if v.negative { seq!['-'] } else { Seq::empty() })
        + (if v.whole.len() == 0 { seq!['0'] } else { digits_text(v.whole) })
        + (if v.frac.len() == 0 { Seq::empty() } else { seq!['.'] + digits_text(v.frac) })
}

/// `ds + 1`, as digits (a carry out of the first digit adds a leading `1`).
pub open spec fn increment(ds: Seq<u8>) -> Seq<u8>
    decreases ds.len(),
{
    if ds.len() == 0 {
        seq![1u8]
    } else if ds.last() < 9 {
        ds.drop_last().push((ds.last() + 1) as u8)
    } else {
        increment(ds.drop_last()).push(0u8)
    }
}

/// The digits of `v` rounded to one place after the point, half to even; the last
/// digit is the one after the point.
pub open spec fn round_one_place(v: RealV) -> Seq<u8> {
    let head = v.whole.push(if v.frac.len() > 0 { v.frac[0] } else { 0u8 });
    let up = v.frac.len() >= 2 && (v.frac[1] > 5 || (v.frac[1] == 5 && v.frac.len() > 2)
        || (v.frac[1] == 5 && v.frac.len() == 2 && head.last() % 2 == 1));
    if up { increment(head) } else { head }
}

/// The text of `v` with exactly one digit after the point.
pub open spec fn real_text_one_place(v: RealV) -> Seq<char> {
    let r = round_one_place(v);
    (if v.negative { seq!['-'] } else { Seq::empty() })
        + (if r.len() <= 1 { seq!['0'] } else { digits_text(r.drop_last()) })
        + seq!['.'] + seq![digit_char(r.last() as nat)]
}

/// An integer magnitude cut down to the largest `i64`.
pub open spec fn clamp_i64(n: nat) -> i64 {
    if n > i64::MAX { i64::MAX } else { n as i64 }
}

proof fn lemma_strip_leading(ds: Seq<u8>)
    requires
        all_digits(ds),
    ensures
        all_digits(strip_leading(ds)),
        strip_leading(ds).len() == 0 || strip_leading(ds)[0] != 0,
    decreases ds.len(),
{
    if ds.len() > 0 && ds[0] == 0 {
        lemma_strip_leading(ds.drop_first());
    }
}

proof fn lemma_strip_trailing(ds: Seq<u8>)
    requires
        all_digits(ds),
    ensures
        all_digits(strip_trailing(ds)),
        strip_trailing(ds).len() == 0 || strip_trailing(ds).last() != 0,
    decreases ds.len(),
{
    if ds.len() > 0 && ds.last() == 0 {
        lemma_strip_trailing(ds.drop_last());
    }
}

proof fn lemma_nat_digits(n: nat)
    ensures
        all_digits(nat_digits(n)),
        nat_digits(n).len() == 0 || nat_digits(n)[0] != 0,
        (nat_digits(n).len() == 0) == (n == 0),
    decreases n,
{
    if n > 0 {
        lemma_nat_digits(n / 10);
        if n / 10 == 0 {
            assert(nat_digits(n / 10).len() == 0);
        }
    }
}

/// Removes leading zeros from `ds`.
fn strip_leading_exec(ds: &Vec<u8>) -> (r: Vec<u8>)
    ensures
        r@ == strip_leading(ds@),
{
    let mut i: usize = 0;
    assert(ds@.subrange(0, ds.len() as int) == ds@);
    while i < ds.len() && ds[i] == 0
        invariant
            i <= ds.len(),
            strip_leading(ds@) == strip_leading(ds@.subrange(i as int, ds.len() as int)),
        decreases ds.len() - i,
    {
        assert(ds@.subrange(i as int, ds.len() as int).drop_first() == ds@.subrange(i + 1, ds.len() as int));
        i = i + 1;
    }
    let mut r: Vec<u8> = Vec::new();
    let mut j = i;
    while j < ds.len()
        invariant
            i <= j <= ds.len(),
            r@ == ds@.subrange(i as int, j as int),
        decreases ds.len() - j,
    {
        r.push(ds[j]);
        assert(ds@.subrange(i as int, j + 1) == ds@.subrange(i as int, j as int).push(ds@[j as int]));
        j = j + 1;
    }
    r
}

/// Removes trailing zeros from `ds`.
fn strip_trailing_exec(ds: &Vec<u8>) -> (r: Vec<u8>)
    ensures
        r@ == strip_trailing(ds@),
{
    let mut n: usize = ds.len();
    assert(ds@.subrange(0, ds.len() as int) == ds@);
    while n > 0 && ds[n - 1] == 0
        invariant
            n <= ds.len(),
            strip_trailing(ds@) == strip_trailing(ds@.subrange(0, n as int)),
        decreases n,
    {
        assert(ds@.subrange(0, n as int).drop_last() == ds@.subrange(0, n - 1));
        n = n - 1;
    }
    let mut r: Vec<u8> = Vec::new();
    let mut j: usize = 0;
    while j < n
        invariant
            j <= n <= ds.len(),
            r@ == ds@.subrange(0, j as int),
        decreases n - j,
    {
        r.push(ds[j]);
        assert(ds@.subrange(0, j + 1) == ds@.subrange(0, j as int).push(ds@[j as int]));
        j = j + 1;
    }
    assert(strip_trailing(ds@.subrange(0, n as int)) == ds@.subrange(0, n as int));
    r
}

fn digit_values_exec(s: &Vec<char>, lo: usize, hi: usize) -> (r: Vec<u8>)
    requires
        lo <= hi <= s.len(),
        forall|i: int| lo <= i < hi ==> is_digit(s@[i]),
    ensures
        r@ == digit_values(s@.subrange(lo as int, hi as int)),
        all_digits(r@),
{
    let mut r: Vec<u8> = Vec::new();
    let mut j = lo;
    while j < hi
        invariant
            lo <= j <= hi <= s.len(),
            forall|i: int| lo <= i < hi ==> is_digit(s@[i]),
            r@ == digit_values(s@.subrange(lo as int, j as int)),
            all_digits(r@),
        decreases hi - j,
    {
        let c = s[j];
        let d = (c as u32 - '0' as u32) as u8;
        r.push(d);
        assert(digit_values(s@.subrange(lo as int, j + 1)) == digit_values(s@.subrange(lo as int, j as int)).push(d));
        j = j + 1;
    }
    r
}

fn count_digits_exec(s: &Vec<char>, i: usize) -> (n: usize)
    requires
        i <= s.len(),
    ensures
        n == count_digits_from(s@, i as int),
        i + n <= s.len(),
        forall|k: int| i <= k < i + n ==> is_digit(s@[k]),
{
    let mut j = i;
    while j < s.len() && '0' <= s[j] && s[j] <= '9'
        invariant
            i <= j <= s.len(),
            count_digits_from(s@, i as int) == (j - i) + count_digits_from(s@, j as int),
            forall|k: int| i <= k < j ==> is_digit(s@[k]),
        decreases s.len() - j,
    {
        j = j + 1;
    }
    j - i
}

impl Real {
    #[verifier::type_invariant]
    spec fn inv(self) -> bool {
        real_wf(self@)
    }

    /// The number written by `text` (`-?[0-9]+(\.[0-9]+)?`), or `None` when the text is
    /// not such a numeral.
    pub fn parse(text: &str) -> (r: Option<Real>)
        ensures
            r is Some <==> parse_real(text@) is Some,
            r matches Some(x) ==> x@ == parse_real(text@).unwrap(),
    {
        let s = chars_of(text);
        let neg = s.len() > 0 && s[0] == '-';
        let b: usize = if neg { 1 } else { 0 };
        let d = count_digits_exec(&s, b);
        let e = b + d;
        if d == 0 {
            return None;
        }
        let w = digit_values_exec(&s, b, e);
        let whole = strip_leading_exec(&w);
        proof { lemma_strip_leading(w@); }
        if e == s.len() {
            let frac: Vec<u8> = Vec::new();
            return Some(Real { negative: neg, whole, frac });
        }
        if s[e] == '.' {
            let f = count_digits_exec(&s, e + 1);
            if f >= 1 && e + 1 + f == s.len() {
                let fd = digit_values_exec(&s, e + 1, s.len());
                let frac = strip_trailing_exec(&fd);
                proof { lemma_strip_trailing(fd@); }
                return Some(Real { negative: neg, whole, frac });
            }
        }
        None
    }

    /// The value of the integer `n`.
    pub fn from_int(n: i64) -> (r: Real)
        ensures
            r@ == int_real(n as int),
    {
        let m: u64 = if n < 0 { (0i128 - n as i128) as u64 } else { n as u64 };
        let whole = nat_digits_exec(m);
        proof { lemma_nat_digits(m as nat); }
        Real { negative: n < 0, whole, frac: Vec::new() }
    }

    /// A copy of this number.
    pub fn copy(&self) -> (r: Real)
        ensures
            r@ == self@,
    {
        proof { use_type_invariant(self); }
        Real { negative: self.negative, whole: copy_digits(&self.whole), frac: copy_digits(&self.frac) }
    }

    /// Whether this number is zero (of either sign).
    pub fn is_zero(&self) -> (b: bool)
        ensures
            b == real_is_zero(self@),
    {
        self.whole.len() == 0 && self.frac.len() == 0
    }

    /// Whether this number is below zero.
    pub fn is_negative(&self) -> (b: bool)
        ensures
            b == real_is_negative(self@),
    {
        self.negative && !self.is_zero()
    }

    /// Whether this number has a non-zero fractional part.
    pub fn has_fraction(&self) -> (b: bool)
        ensures
            b == (self@.frac.len() > 0),
    {
        self.frac.len() > 0
    }

    /// The same magnitude, without a sign.
    pub fn abs(&self) -> (r: Real)
        ensures
            r@ == (RealV { negative: false, ..self@ }),
    {
        proof { use_type_invariant(self); }
        Real { negative: false, whole: copy_digits(&self.whole), frac: copy_digits(&self.frac) }
    }

    /// The same magnitude with the other sign.
    pub fn negated(&self) -> (r: Real)
        ensures
            r@ == (RealV { negative: !self@.negative, ..self@ }),
    {
        proof { use_type_invariant(self); }
        Real { negative: !self.negative, whole: copy_digits(&self.whole), frac: copy_digits(&self.frac) }
    }

    /// Appends the shortest text of this number (see `real_text`).
    pub fn push_text(&self, out: &mut Vec<char>)
        ensures
            final(out)@ == old(out)@ + real_text(self@),
    {
        proof { use_type_invariant(self); }
        let ghost start = out@;
        if self.negative {
            out.push('-');
        }
        let ghost a = out@;
        if self.whole.len() == 0 {
            out.push('0');
        } else {
            push_digits(out, &self.whole);
        }
        let ghost b = out@;
        if self.frac.len() > 0 {
            out.push('.');
            push_digits(out, &self.frac);
        }
        assert(out@ == start + (if self.negative { seq!['-'] } else { Seq::<char>::empty() })
            + (if self.whole@.len() == 0 { seq!['0'] } else { digits_text(self.whole@) })
            + (if self.frac@.len() == 0 { Seq::<char>::empty() } else { seq!['.'] + digits_text(self.frac@) }));
    }

    /// Appends the text of this number rounded to one place after the point
    /// (see `real_text_one_place`).
    pub fn push_text_one_place(&self, out: &mut Vec<char>)
        ensures
            final(out)@ == old(out)@ + real_text_one_place(self@),
    {
        proof { use_type_invariant(self); }
        let ghost v = self@;
        let mut head = copy_digits(&self.whole);
        let first: u8 = if self.frac.len() > 0 { self.frac[0] } else { 0 };
        head.push(first);
        assert(head@ == v.whole.push(if v.frac.len() > 0 { v.frac[0] } else { 0u8 }));
        let last = head[head.len() - 1];
        let up = self.frac.len() >= 2 && (self.frac[1] > 5 || (self.frac[1] == 5 && self.frac.len() > 2)
            || (self.frac[1] == 5 && self.frac.len() == 2 && last % 2 == 1));
        let r = if up { increment_exec(&head) } else { head };
        assert(r@ == round_one_place(v));
        proof { lemma_increment_len(head@); }
        let ghost start = out@;
        if self.negative {
            out.push('-');
        }
        if r.len() <= 1 {
            out.push('0');
        } else {
            let mut j: usize = 0;
            let ghost mid = out@;
            while j < r.len() - 1
                invariant
                    j <= r.len() - 1,
                    r.len() >= 2,
                    out@ == mid + digits_text(r@.subrange(0, j as int)),
                    all_digits(r@),
                decreases r.len() - 1 - j,
            {
                out.push(digit(r[j] as u64));
                assert(r@.subrange(0, j + 1) == r@.subrange(0, j as int).push(r@[j as int]));
                assert(digits_text(r@.subrange(0, j + 1)) == digits_text(r@.subrange(0, j as int)).push(digit_char(r@[j as int] as nat)));
                j = j + 1;
            }
            assert(r@.subrange(0, r.len() - 1) == r@.drop_last());
        }
        out.push('.');
        out.push(digit(r[r.len() - 1] as u64));
    }
}

/// Appends the digit characters of `ds`.
fn push_digits(out: &mut Vec<char>, ds: &Vec<u8>)
    requires
        all_digits(ds@),
    ensures
        final(out)@ == old(out)@ + digits_text(ds@),
{
    let ghost start = out@;
    for j in 0..ds.len()
        invariant
            all_digits(ds@),
            out@ == start + digits_text(ds@.take(j as int)),
    {
        out.push(digit(ds[j] as u64));
        assert(ds@.take(j + 1) == ds@.take(j as int).push(ds@[j as int]));
        assert(digits_text(ds@.take(j + 1)) == digits_text(ds@.take(j as int)).push(digit_char(ds@[j as int] as nat)));
    }
    assert(ds@.take(ds.len() as int) == ds@);
}

fn copy_digits(ds: &Vec<u8>) -> (r: Vec<u8>)
    ensures
        r@ == ds@,
{
    let mut r: Vec<u8> = Vec::new();
    for j in 0..ds.len()
        invariant
            r@ == ds@.take(j as int),
    {
        r.push(ds[j]);
        assert(ds@.take(j + 1) == ds@.take(j as int).push(ds@[j as int]));
    }
    assert(ds@.take(ds.len() as int) == ds@);
    r
}

fn nat_digits_exec(n: u64) -> (r: Vec<u8>)
    ensures
        r@ == nat_digits(n as nat),
    decreases n,
{
    if n == 0 {
        Vec::new()
    } else {
        let mut r = nat_digits_exec(n / 10);
        r.push((n % 10) as u8);
        r
    }
}

proof fn lemma_increment_len(ds: Seq<u8>)
    requires
        all_digits(ds),
        ds.len() >= 1,
    ensures
        increment(ds).len() >= ds.len(),
        all_digits(increment(ds)),
    decreases ds.len(),
{
    if ds.last() >= 9 {
        if ds.len() > 1 {
            lemma_increment_len(ds.drop_last());
        } else {
            assert(ds.drop_last().len() == 0);
            assert(increment(ds.drop_last()) == seq![1u8]);
        }
        let r = increment(ds.drop_last());
        assert forall|i: int| 0 <= i < r.push(0u8).len() implies r.push(0u8)[i] < 10 by {
            if i < r.len() {
                assert(r.push(0u8)[i] == r[i]);
            }
        }
    } else {
        let r = ds.drop_last().push((ds.last() + 1) as u8);
        assert forall|i: int| 0 <= i < r.len() implies r[i] < 10 by {
            if i < ds.len() - 1 {
                assert(r[i] == ds[i]);
            }
        }
    }
}

fn increment_exec(ds: &Vec<u8>) -> (r: Vec<u8>)
    requires
        all_digits(ds@),
    ensures
        r@ == increment(ds@),
{
    let mut n: usize = ds.len();
    assert(ds@.subrange(0, ds.len() as int) == ds@);
    assert(increment(ds@) == increment(ds@) + Seq::new(0nat, |k: int| 0u8));
    while n > 0 && ds[n - 1] >= 9
        invariant
            n <= ds.len(),
            all_digits(ds@),
            forall|k: int| n <= k < ds.len() ==> ds@[k] == 9,
            increment(ds@) == increment(ds@.subrange(0, n as int)) + Seq::new((ds.len() - n) as nat, |k: int| 0u8),
        decreases n,
    {
        let ghost pre = ds@.subrange(0, n as int);
        assert(pre.drop_last() == ds@.subrange(0, n - 1));
        assert(increment(pre) == increment(pre.drop_last()).push(0u8));
        assert(Seq::new((ds.len() - (n - 1)) as nat, |k: int| 0u8)
            == seq![0u8] + Seq::new((ds.len() - n) as nat, |k: int| 0u8));
        n = n - 1;
    }
    let mut r: Vec<u8> = Vec::new();
    if n == 0 {
        r.push(1);
        assert(ds@.subrange(0, 0) == Seq::<u8>::empty());
    } else {
        let mut j: usize = 0;
        while j < n - 1
            invariant
                j <= n - 1,
                n <= ds.len(),
                r@ == ds@.subrange(0, j as int),
            decreases n - 1 - j,
        {
            r.push(ds[j]);
            assert(ds@.subrange(0, j + 1) == ds@.subrange(0, j as int).push(ds@[j as int]));
            j = j + 1;
        }
        r.push(ds[n - 1] + 1);
        let ghost pre = ds@.subrange(0, n as int);
        assert(pre.drop_last() == ds@.subrange(0, n - 1));
    }
    let ghost mid = r@;
    let mut k = n;
    while k < ds.len()
        invariant
            n <= k <= ds.len(),
            r@ == mid + Seq::new((k - n) as nat, |i: int| 0u8),
        decreases ds.len() - k,
    {
        r.push(0);
        assert(Seq::new((k + 1 - n) as nat, |i: int| 0u8) == Seq::new((k - n) as nat, |i: int| 0u8).push(0u8));
        k = k + 1;
    }
    r
}

/// The magnitude of the integer numeral `text` (`-?[0-9]+`) when it fits a `u64`
/// (`None` inside for a wider one), and whether the numeral is below zero; `None` for
/// any other text.
pub fn int_magnitude(text: &str) -> (r: Option<(Option<u64>, bool)>)
    ensures
        r is Some <==> (parse_real(text@) matches Some(v) && v.frac.len() == 0 && !text@.contains('.')),
        r matches Some((m, neg)) ==> ({
            let v = parse_real(text@).unwrap();
            &&& neg == (v.negative && digits_value(v.whole) > 0)
            &&& (m matches Some(x) ==> x == digits_value(v.whole))
            &&& (m is None ==> digits_value(v.whole) > u64::MAX)
        }),
{
    let s = chars_of(text);
    let neg = s.len() > 0 && s[0] == '-';
    let b: usize = if neg { 1 } else { 0 };
    let d = count_digits_exec(&s, b);
    if d == 0 || b + d != s.len() {
        proof {
            if d != 0 && b + d != s.len() && parse_real(text@) is Some {
                assert(s@[(b + d) as int] == '.');
                assert(text@.contains('.'));
            }
        }
        return None;
    }
    assert(!text@.contains('.')) by {
        if text@.contains('.') {
            let k = choose|k: int| 0 <= k < text@.len() && text@[k] == '.';
            assert(k >= b);
            assert(is_digit(s@[k]));
        }
    }
    let w = digit_values_exec(&s, b, s.len());
    let whole = strip_leading_exec(&w);
    proof {
        lemma_strip_leading(w@);
        if whole.len() > 0 {
            lemma_leading_digit_positive(whole@);
        }
    }
    let mut acc: u64 = 0;
    let mut saturated = false;
    let mut j: usize = 0;
    while j < whole.len()
        invariant
            j <= whole.len(),
            all_digits(whole@),
            saturated ==> digits_value(whole@.take(j as int)) > u64::MAX,
            !saturated ==> acc as nat == digits_value(whole@.take(j as int)),
        decreases whole.len() - j,
    {
        assert(whole@.take(j + 1).drop_last() == whole@.take(j as int));
        assert(digits_value(whole@.take(j + 1)) == digits_value(whole@.take(j as int)) * 10 + whole@[j as int] as nat);
        if !saturated {
            let dv: u64 = whole[j] as u64;
            assert(dv < 10);
            if acc > (u64::MAX - dv) / 10 {
                assert(acc * 10 + dv > u64::MAX) by (nonlinear_arith)
                    requires acc > (u64::MAX - dv) / 10, dv < 10;
                saturated = true;
            } else {
                assert(acc * 10 + dv <= u64::MAX) by (nonlinear_arith)
                    requires acc <= (u64::MAX - dv) / 10, dv < 10;
                acc = acc * 10 + dv;
            }
        } else {
            proof { lemma_digits_value_grows(whole@.take(j + 1)); }
        }
        j = j + 1;
    }
    assert(whole@.take(whole.len() as int) == whole@);
    let m = if saturated { None } else { Some(acc) };
    Some((m, neg && whole.len() > 0))
}

/// Digits that start with a non-zero digit are worth more than zero.
proof fn lemma_leading_digit_positive(ds: Seq<u8>)
    requires
        ds.len() > 0,
        ds[0] != 0,
    ensures
        digits_value(ds) > 0,
    decreases ds.len(),
{
    if ds.len() > 1 {
        assert(ds.drop_last()[0] == ds[0]);
        lemma_leading_digit_positive(ds.drop_last());
    }
}

pub(crate) proof fn lemma_digits_value_grows(ds: Seq<u8>)
    requires
        ds.len() > 0,
    ensures
        digits_value(ds) >= digits_value(ds.drop_last()),
{
}


// ---------------------------------------------------------------------------------
// Laws
// ---------------------------------------------------------------------------------

proof fn lemma_digits_text(ds: Seq<u8>)
    requires
        all_digits(ds),
    ensures
        digits_text(ds).len() == ds.len(),
        forall|i: int| 0 <= i < ds.len() ==> is_digit(#[trigger] digits_text(ds)[i]),
        digit_values(digits_text(ds)) == ds,
{
    assert forall|i: int| 0 <= i < ds.len() implies is_digit(#[trigger] digits_text(ds)[i])
        && char_digit(digits_text(ds)[i]) == ds[i] by {
        assert(ds[i] < 10);
        let d = ds[i] as nat;
        assert(is_digit(digit_char(d)) && char_digit(digit_char(d)) == d);
    }
    assert(digit_values(digits_text(ds)) =~= ds);
}

/// The digit count from `i` is `j - i` when `s[i..j]` are digits and `s[j]` is not.
proof fn lemma_count_digits(s: Seq<char>, i: int, j: int)
    requires
        0 <= i <= j <= s.len(),
        forall|k: int| i <= k < j ==> is_digit(#[trigger] s[k]),
        j == s.len() || !is_digit(s[j]),
    ensures
        count_digits_from(s, i) == j - i,
    decreases j - i,
{
    if i < j {
        lemma_count_digits(s, i + 1, j);
    }
}

proof fn lemma_strip_leading_canonical(ds: Seq<u8>)
    requires
        ds.len() == 0 || ds[0] != 0,
    ensures
        strip_leading(ds) == ds,
{
}

proof fn lemma_strip_trailing_canonical(ds: Seq<u8>)
    requires
        ds.len() == 0 || ds.last() != 0,
    ensures
        strip_trailing(ds) == ds,
{
}

/// The text of a number reads back as that number.
pub proof fn law_text_parse(v: RealV)
    requires
        real_wf(v),
    ensures
        parse_real(real_text(v)) == Some(v),
{
    let sign: Seq<char> = if v.negative { seq!['-'] } else { Seq::empty() };
    let w: Seq<u8> = if v.whole.len() == 0 { seq![0u8] } else { v.whole };
    assert(all_digits(w));
    lemma_digits_text(w);
    lemma_digits_text(v.frac);
    let wt = digits_text(w);
    assert(wt == (if v.whole.len() == 0 { seq!['0'] } else { digits_text(v.whole) })) by {
        if v.whole.len() == 0 {
            assert(digits_text(w) =~= seq![digit_char(0)]);
        }
    }
    let ft: Seq<char> = if v.frac.len() == 0 { Seq::empty() } else { seq!['.'] + digits_text(v.frac) };
    let s = real_text(v);
    assert(s == sign + wt + ft);
    let b: int = sign.len() as int;
    let e = b + wt.len();
    assert(s.len() > 0 && (s[0] == '-') == v.negative) by {
        if !v.negative { assert(s[0] == wt[0]); assert(is_digit(wt[0])); }
    }
    assert forall|k: int| b <= k < e implies is_digit(#[trigger] s[k]) by {
        assert(s[k] == wt[k - b]);
    }
    if v.frac.len() == 0 {
        assert(e == s.len());
        lemma_count_digits(s, b, e);
    } else {
        assert(s[e] == '.');
        lemma_count_digits(s, b, e);
        assert forall|k: int| e + 1 <= k < s.len() implies is_digit(#[trigger] s[k]) by {
            assert(s[k] == digits_text(v.frac)[k - e - 1]);
        }
        lemma_count_digits(s, e + 1, s.len() as int);
        assert(s.subrange(e + 1, s.len() as int) =~= digits_text(v.frac));
        lemma_strip_trailing_canonical(v.frac);
    }
    assert(s.subrange(b, e) =~= wt);
    assert(digit_values(s.subrange(b, e)) == w);
    if v.whole.len() == 0 {
        assert(seq![0u8].drop_first() =~= Seq::<u8>::empty());
        assert(strip_leading(seq![0u8]) == strip_leading(Seq::<u8>::empty()));
        assert(strip_leading(Seq::<u8>::empty()) == Seq::<u8>::empty());
    } else {
        lemma_strip_leading_canonical(v.whole);
    }
    assert(strip_leading(w) == v.whole);
    assert(count_digits_from(s, b) == wt.len());
    if v.frac.len() == 0 {
        assert(parse_real(s) == Some(RealV { negative: v.negative, whole: v.whole, frac: Seq::<u8>::empty() }));
        assert(v.frac =~= Seq::<u8>::empty());
    } else {
        assert(digit_values(s.subrange(e + 1, s.len() as int)) == v.frac);
        assert(parse_real(s) == Some(RealV { negative: v.negative, whole: v.whole, frac: v.frac }));
    }
}

}
