//! The lexical analyser: turns source text into `(lexeme, token)` pairs and
//! renders them in the `lexeme/NAME` listing format.
use vstd::prelude::*;
use crate::text::{is_digit, chars_of, push_char, push_all, push_str, string_of, join, string_views};

verus! {

/// The kinds of token of the language.
#[derive(Clone, Copy, Debug, PartialEq, Eq, Structural)]
pub enum Token {
    INT,
    REAL,
    VAR,
    ADD,
    SUB,
    MUL,
    DIV,
    INTDIV,
    POW,
    LPAREN,
    RPAREN,
    LBRACKET,
    RBRACKET,
    EQ,
    NE,
    LT,
    GT,
    LE,
    GE,
    ASSIGN,
    LIST,
    NEWLINE,
    WHITESPACE,
    ERR,
}

pub open spec fn is_space(c: char) -> bool {
    c == ' ' || c == '\t' || c == '\r' || c == '\x0C'
}

pub open spec fn is_alpha(c: char) -> bool {
    ('a' <= c && c <= 'z') || ('A' <= c && c <= 'Z') || c == '_'
}

pub open spec fn is_alnum(c: char) -> bool {
    is_alpha(c) || is_digit(c)
}

/// The number of decimal digits in `s` starting at `i`.
pub open spec fn digits_from(s: Seq<char>, i: int) -> nat
    decreases s.len() - i,
{
    if 0 <= i < s.len() && is_digit(s[i]) {
        1 + digits_from(s, i + 1)
    } else {
        0
    }
}

/// The number of identifier characters in `s` starting at `i`.
pub open spec fn alnums_from(s: Seq<char>, i: int) -> nat
    decreases s.len() - i,
{
    if 0 <= i < s.len() && is_alnum(s[i]) {
        1 + alnums_from(s, i + 1)
    } else {
        0
    }
}

/// Whether `s` has the character `c` at index `i`.
pub open spec fn at(s: Seq<char>, i: int, c: char) -> bool {
    0 <= i < s.len() && s[i] == c
}

/// The length and kind of a number literal `-?[0-9]+(\.[0-9]+)?` whose digits start at `d`
/// (the literal itself starts at `i`).
pub open spec fn number_at(s: Seq<char>, i: int, d: int) -> (nat, Token) {
    let e = d + digits_from(s, d);
    if at(s, e, '.') && 0 <= e + 1 < s.len() && is_digit(s[e + 1]) {
        ((e + 1 + digits_from(s, e + 1) - i) as nat, Token::REAL)
    } else {
        ((e - i) as nat, Token::INT)
    }
}

/// Whether the identifier characters `s[i..i + k]` spell the keyword `list`.
pub open spec fn is_list_keyword(s: Seq<char>, i: int, k: nat) -> bool {
    k == 4 && s[i] == 'l' && s[i + 1] == 'i' && s[i + 2] == 's' && s[i + 3] == 't'
}

/// The length and kind of the longest token starting at `s[i]` (a non-blank character).
pub open spec fn token_at(s: Seq<char>, i: int) -> (nat, Token) {
    let c = s[i];
    if is_digit(c) {
        number_at(s, i, i)
    } else if c == '-' && 0 <= i + 1 < s.len() && is_digit(s[i + 1]) {
        number_at(s, i, i + 1)
    } else if is_alpha(c) {
        let k = alnums_from(s, i);
        (k, if is_list_keyword(s, i, k) { Token::LIST } else { Token::VAR })
    } else if c == '\n' {
        (1, Token::NEWLINE)
    } else if c == '/' {
        if at(s, i + 1, '/') { (2, Token::INTDIV) } else { (1, Token::DIV) }
    } else if c == '=' {
        if at(s, i + 1, '=') { (2, Token::EQ) } else { (1, Token::ASSIGN) }
    } else if c == '!' {
        if at(s, i + 1, '=') { (2, Token::NE) } else { (1, Token::ERR) }
    } else if c == '<' {
        if at(s, i + 1, '=') { (2, Token::LE) } else { (1, Token::LT) }
    } else if c == '>' {
        if at(s, i + 1, '=') { (2, Token::GE) } else { (1, Token::GT) }
    } else if c == '+' {
        (1, Token::ADD)
    } else if c == '-' {
        (1, Token::SUB)
    } else if c == '*' {
        (1, Token::MUL)
    } else if c == '^' {
        (1, Token::POW)
    } else if c == '(' {
        (1, Token::LPAREN)
    } else if c == ')' {
        (1, Token::RPAREN)
    } else if c == '[' {
        (1, Token::LBRACKET)
    } else if c == ']' {
        (1, Token::RBRACKET)
    } else {
        (1, Token::ERR)
    }
}

/// The tokens of `s` from index `i` on: blanks are skipped, and each token is the
/// longest one that starts at the current character.
pub open spec fn lex_from(s: Seq<char>, i: int) -> Seq<(Seq<char>, Token)>
    decreases s.len() - i,
{
    if i < 0 || i >= s.len() {
        Seq::empty()
    } else if is_space(s[i]) {
        lex_from(s, i + 1)
    } else {
        let (k, t) = token_at(s, i);
        if k == 0 || i + k > s.len() {
            Seq::empty()
        } else {
            seq![(s.subrange(i, i + k), t)] + lex_from(s, i + k)
        }
    }
}

/// The `(lexeme, token)` pairs of `s`.
pub open spec fn lex(s: Seq<char>) -> Seq<(Seq<char>, Token)> {
    lex_from(s, 0)
}

/// The view of a token list: each lexeme taken as its characters.
pub open spec fn pairs_view(v: Seq<(String, Token)>) -> Seq<(Seq<char>, Token)> {
    v.map_values(|p: (String, Token)| (p.0@, p.1))
}

proof fn lemma_token_at_positive(s: Seq<char>, i: int)
    requires
        0 <= i < s.len(),
    ensures
        token_at(s, i).0 >= 1,
        i + token_at(s, i).0 <= s.len(),
{
    lemma_digits_bound(s, i);
    lemma_digits_bound(s, i + 1);
    lemma_alnums_bound(s, i);
    let c = s[i];
    if is_digit(c) || (c == '-' && 0 <= i + 1 < s.len() && is_digit(s[i + 1])) {
        let d = if is_digit(c) { i } else { i + 1 };
        let e = d + digits_from(s, d);
        lemma_digits_bound(s, d);
        lemma_digits_bound(s, e + 1);
    }
}

proof fn lemma_digits_bound(s: Seq<char>, i: int)
    ensures
        0 <= i <= s.len() ==> i + digits_from(s, i) <= s.len(),
        0 <= i < s.len() && is_digit(s[i]) ==> digits_from(s, i) >= 1,
    decreases s.len() - i,
{
    if 0 <= i < s.len() && is_digit(s[i]) {
        lemma_digits_bound(s, i + 1);
    }
}

proof fn lemma_alnums_bound(s: Seq<char>, i: int)
    ensures
        0 <= i <= s.len() ==> i + alnums_from(s, i) <= s.len(),
        0 <= i < s.len() && is_alnum(s[i]) ==> alnums_from(s, i) >= 1,
    decreases s.len() - i,
{
    if 0 <= i < s.len() && is_alnum(s[i]) {
        lemma_alnums_bound(s, i + 1);
    }
}

fn is_digit_char(c: char) -> (b: bool)
    ensures
        b == is_digit(c),
{
    '0' <= c && c <= '9'
}

fn is_alnum_char(c: char) -> (b: bool)
    ensures
        b == is_alnum(c),
{
    ('a' <= c && c <= 'z') || ('A' <= c && c <= 'Z') || c == '_' || ('0' <= c && c <= '9')
}

fn char_at_is(s: &Vec<char>, i: usize, c: char) -> (b: bool)
    ensures
        b == at(s@, i as int, c),
{
    i < s.len() && s[i] == c
}

fn count_digits(s: &Vec<char>, i: usize) -> (n: usize)
    requires
        i <= s.len(),
    ensures
        n == digits_from(s@, i as int),
        i + n <= s.len(),
{
    let mut j = i;
    while j < s.len() && is_digit_char(s[j])
        invariant
            i <= j <= s.len(),
            digits_from(s@, i as int) == (j - i) + digits_from(s@, j as int),
        decreases s.len() - j,
    {
        j = j + 1;
    }
    j - i
}

fn count_alnums(s: &Vec<char>, i: usize) -> (n: usize)
    requires
        i <= s.len(),
    ensures
        n == alnums_from(s@, i as int),
        i + n <= s.len(),
{
    let mut j = i;
    while j < s.len() && is_alnum_char(s[j])
        invariant
            i <= j <= s.len(),
            alnums_from(s@, i as int) == (j - i) + alnums_from(s@, j as int),
        decreases s.len() - j,
    {
        j = j + 1;
    }
    j - i
}

fn scan_number(s: &Vec<char>, i: usize, d: usize) -> (r: (usize, Token))
    requires
        i <= d <= s.len(),
    ensures
        r.0 == number_at(s@, i as int, d as int).0,
        r.1 == number_at(s@, i as int, d as int).1,
{
    let e = d + count_digits(s, d);
    if char_at_is(s, e, '.') && e + 1 < s.len() && is_digit_char(s[e + 1]) {
        let f = count_digits(s, e + 1);
        (e + 1 + f - i, Token::REAL)
    } else {
        (e - i, Token::INT)
    }
}

fn scan_token(s: &Vec<char>, i: usize) -> (r: (usize, Token))
    requires
        i < s.len(),
    ensures
        r.0 == token_at(s@, i as int).0,
        r.1 == token_at(s@, i as int).1,
{
    let c = s[i];
    if is_digit_char(c) {
        scan_number(s, i, i)
    } else if c == '-' && i + 1 < s.len() && is_digit_char(s[i + 1]) {
        scan_number(s, i, i + 1)
    } else if ('a' <= c && c <= 'z') || ('A' <= c && c <= 'Z') || c == '_' {
        let k = count_alnums(s, i);
        if k == 4 && s[i] == 'l' && s[i + 1] == 'i' && s[i + 2] == 's' && s[i + 3] == 't' {
            (k, Token::LIST)
        } else {
            (k, Token::VAR)
        }
    } else if c == '\n' {
        (1, Token::NEWLINE)
    } else if c == '/' {
        if char_at_is(s, i + 1, '/') { (2, Token::INTDIV) } else { (1, Token::DIV) }
    } else if c == '=' {
        if char_at_is(s, i + 1, '=') { (2, Token::EQ) } else { (1, Token::ASSIGN) }
    } else if c == '!' {
        if char_at_is(s, i + 1, '=') { (2, Token::NE) } else { (1, Token::ERR) }
    } else if c == '<' {
        if char_at_is(s, i + 1, '=') { (2, Token::LE) } else { (1, Token::LT) }
    } else if c == '>' {
        if char_at_is(s, i + 1, '=') { (2, Token::GE) } else { (1, Token::GT) }
    } else if c == '+' {
        (1, Token::ADD)
    } else if c == '-' {
        (1, Token::SUB)
    } else if c == '*' {
        (1, Token::MUL)
    } else if c == '^' {
        (1, Token::POW)
    } else if c == '(' {
        (1, Token::LPAREN)
    } else if c == ')' {
        (1, Token::RPAREN)
    } else if c == '[' {
        (1, Token::LBRACKET)
    } else if c == ']' {
        (1, Token::RBRACKET)
    } else {
        (1, Token::ERR)
    }
}

/// The characters `s[lo..hi]` as a string.
fn substring(s: &Vec<char>, lo: usize, hi: usize) -> (r: String)
    requires
        lo <= hi <= s.len(),
    ensures
        r@ == s@.subrange(lo as int, hi as int),
{
    let mut r = String::new();
    let mut j = lo;
    while j < hi
        invariant
            lo <= j <= hi <= s.len(),
            r@ == s@.subrange(lo as int, j as int),
        decreases hi - j,
    {
        push_char(&mut r, s[j]);
        assert(s@.subrange(lo as int, j + 1) == s@.subrange(lo as int, j as int).push(s@[j as int]));
        j = j + 1;
    }
    r
}

/// The `(lexeme, token)` pairs of the characters `s`.
pub fn lex_chars(s: &Vec<char>) -> (r: Vec<(String, Token)>)
    ensures
        pairs_view(r@) == lex(s@),
{
    let mut r: Vec<(String, Token)> = Vec::new();
    let mut i: usize = 0;
    while i < s.len()
        invariant
            i <= s.len(),
            lex(s@) == pairs_view(r@) + lex_from(s@, i as int),
        decreases s.len() - i,
    {
        let ghost old_r = r@;
        if s[i] == ' ' || s[i] == '\t' || s[i] == '\r' || s[i] == '\x0C' {
            i = i + 1;
        } else {
            proof { lemma_token_at_positive(s@, i as int); }
            let (k, t) = scan_token(s, i);
            let lexeme = substring(s, i, i + k);
            r.push((lexeme, t));
            assert(pairs_view(r@) == pairs_view(old_r).push((s@.subrange(i as int, (i + k) as int), t)));
            i = i + k;
        }
    }
    assert(lex_from(s@, i as int) == Seq::<(Seq<char>, Token)>::empty());
    r
}

/// The `(lexeme, token)` pairs of `input`: blanks are skipped, a line break is a
/// `NEWLINE` token, and each token is the longest that starts at the current character
/// (a character that starts no token is an `ERR` token of its own).
pub fn tokenize(input: &str) -> (r: Vec<(String, Token)>)
    ensures
        pairs_view(r@) == lex(input@),
        crate::parser::tokens_ok(pairs_view(r@)),
{
    proof { crate::parser::law_lexer_tokens_ok(input@); }
    let s = chars_of(input);
    lex_chars(&s)
}


/// The name under which a token kind is listed.
pub open spec fn token_name(t: Token) -> Seq<char> {
    match t {
        Token::REAL => "REAL"@,
        Token::INT => "INT"@,
        Token::VAR => "VAR"@,
        Token::ADD => "+"@,
        Token::SUB => "-"@,
        Token::MUL => "*"@,
        Token::DIV => "/"@,
        Token::INTDIV => "//"@,
        Token::POW => "POW"@,
        Token::LPAREN => "LPAREN"@,
        Token::RPAREN => "RPAREN"@,
        Token::LBRACKET => "LBRACKET"@,
        Token::RBRACKET => "RBRACKET"@,
        Token::EQ => "=="@,
        Token::NE => "!="@,
        Token::LT => "<"@,
        Token::GT => ">"@,
        Token::LE => "<="@,
        Token::GE => ">="@,
        Token::ASSIGN => "="@,
        Token::LIST => "list"@,
        Token::ERR => "ERR"@,
        _ => "UNKNOWN"@,
    }
}

/// The token kinds that a listing can show (a line holds no line break, and blanks
/// are no tokens).
pub open spec fn is_listed(t: Token) -> bool {
    t != Token::NEWLINE && t != Token::WHITESPACE
}

/// Every listed kind of token has a name of its own (so a listing tells the kinds
/// apart), and the brackets are named `LBRACKET` and `RBRACKET`.
pub proof fn law_token_names_distinct(t1: Token, t2: Token)
    requires
        is_listed(t1),
        is_listed(t2),
        token_name(t1) == token_name(t2),
    ensures
        t1 == t2,
        token_name(Token::LBRACKET) == "LBRACKET"@,
        token_name(Token::RBRACKET) == "RBRACKET"@,
{
    reveal_strlit("REAL"); reveal_strlit("INT"); reveal_strlit("VAR"); reveal_strlit("+");
    reveal_strlit("-"); reveal_strlit("*"); reveal_strlit("/"); reveal_strlit("//");
    reveal_strlit("POW"); reveal_strlit("LPAREN"); reveal_strlit("RPAREN"); reveal_strlit("LBRACKET");
    reveal_strlit("RBRACKET"); reveal_strlit("=="); reveal_strlit("!="); reveal_strlit("<");
    reveal_strlit(">"); reveal_strlit("<="); reveal_strlit(">="); reveal_strlit("=");
    reveal_strlit("list"); reveal_strlit("ERR");
    let n1 = token_name(t1);
    let n2 = token_name(t2);
    assert(n1.len() == n2.len());
    assert(n1[0] == n2[0]);
    assert(n1.len() > 1 ==> n1[1] == n2[1]);
}

/// The kinds whose name is their own spelling: the operators and the keyword `list`.
pub open spec fn named_by_lexeme(t: Token) -> bool {
    t == Token::ADD || t == Token::SUB || t == Token::MUL || t == Token::DIV || t == Token::INTDIV
        || t == Token::EQ || t == Token::NE || t == Token::LT || t == Token::GT || t == Token::LE
        || t == Token::GE || t == Token::ASSIGN || t == Token::LIST
}

proof fn lemma_operator_lexeme(s: Seq<char>, i: int)
    requires
        0 <= i < s.len(),
        named_by_lexeme(token_at(s, i).1),
        i + token_at(s, i).0 <= s.len(),
    ensures
        s.subrange(i, i + token_at(s, i).0) == token_name(token_at(s, i).1),
{
    reveal_strlit("+"); reveal_strlit("-"); reveal_strlit("*"); reveal_strlit("/");
    reveal_strlit("//"); reveal_strlit("=="); reveal_strlit("!="); reveal_strlit("<");
    reveal_strlit(">"); reveal_strlit("<="); reveal_strlit(">="); reveal_strlit("=");
    reveal_strlit("list");
    let (k, t) = token_at(s, i);
    let w = s.subrange(i, i + k);
    if k == 1 {
        assert(w =~= seq![s[i]]);
    } else if k == 2 {
        assert(w =~= seq![s[i], s[i + 1]]);
    } else {
        assert(w =~= seq![s[i], s[i + 1], s[i + 2], s[i + 3]]);
    }
}

proof fn lemma_operator_names_from(s: Seq<char>, i: int)
    ensures
        forall|j: int| 0 <= j < lex_from(s, i).len() && named_by_lexeme((#[trigger] lex_from(s, i)[j]).1)
            ==> token_name(lex_from(s, i)[j].1) == lex_from(s, i)[j].0,
    decreases s.len() - i,
{
    if i < 0 || i >= s.len() {
    } else if is_space(s[i]) {
        lemma_operator_names_from(s, i + 1);
    } else {
        let (k, t) = token_at(s, i);
        if k == 0 || i + k > s.len() {
        } else {
            lemma_operator_names_from(s, i + k);
            let l = lex_from(s, i);
            let rest = lex_from(s, i + k);
            assert forall|j: int| 0 <= j < l.len() && named_by_lexeme((#[trigger] l[j]).1)
                implies token_name(l[j].1) == l[j].0 by {
                if j == 0 {
                    lemma_operator_lexeme(s, i);
                } else {
                    assert(l[j] == rest[j - 1]);
                }
            }
        }
    }
}

/// An operator, or the keyword `list`, is listed under its own spelling: in the
/// tokens of any text, such a token's name is its lexeme.
pub proof fn law_operators_named_by_lexeme(s: Seq<char>)
    ensures
        forall|j: int| 0 <= j < lex(s).len() && named_by_lexeme((#[trigger] lex(s)[j]).1)
            ==> token_name(lex(s)[j].1) == lex(s)[j].0,
{
    lemma_operator_names_from(s, 0);
}

/// The name under which a token kind is listed.
pub fn token_name_of(t: Token) -> (r: &'static str)
    ensures
        r@ == token_name(t),
{
    match t {
        Token::REAL => "REAL",
        Token::INT => "INT",
        Token::VAR => "VAR",
        Token::ADD => "+",
        Token::SUB => "-",
        Token::MUL => "*",
        Token::DIV => "/",
        Token::INTDIV => "//",
        Token::POW => "POW",
        Token::LPAREN => "LPAREN",
        Token::RPAREN => "RPAREN",
        Token::LBRACKET => "LBRACKET",
        Token::RBRACKET => "RBRACKET",
        Token::EQ => "==",
        Token::NE => "!=",
        Token::LT => "<",
        Token::GT => ">",
        Token::LE => "<=",
        Token::GE => ">=",
        Token::ASSIGN => "=",
        Token::LIST => "list",
        Token::ERR => "ERR",
        _ => "UNKNOWN",
    }
}

/// The index of the first line break in `s` at or after `i` (`s.len()` when there is none).
pub open spec fn first_newline(s: Seq<char>, i: int) -> int
    decreases s.len() - i,
{
    if i < 0 || i >= s.len() {
        s.len() as int
    } else if s[i] == '\n' {
        i
    } else {
        first_newline(s, i + 1)
    }
}

/// The lines of `s` from index `i` on, as `str::lines` splits them: at each `\n`,
/// with a `\r` just before that `\n` dropped, and no empty line after a final `\n`.
pub open spec fn lines_from(s: Seq<char>, i: int) -> Seq<Seq<char>>
    decreases s.len() - i,
{
    if i < 0 || i >= s.len() {
        Seq::empty()
    } else {
        let e = first_newline(s, i);
        if e < i || e > s.len() {
            Seq::empty()
        } else {
            let line = if e < s.len() && e > i && s[e - 1] == '\r' {
                s.subrange(i, e - 1)
            } else {
                s.subrange(i, e)
            };
            if e >= s.len() {
                seq![line]
            } else {
                seq![line] + lines_from(s, e + 1)
            }
        }
    }
}

/// The lines of `s`.
pub open spec fn lines_of(s: Seq<char>) -> Seq<Seq<char>> {
    lines_from(s, 0)
}

/// Whether a line holds a token other than a number literal; a negative literal on
/// such a line is listed as a minus sign followed by the number.
pub open spec fn has_operator(toks: Seq<(Seq<char>, Token)>) -> bool {
    exists|j: int| 0 <= j < toks.len() && toks[j].1 != Token::INT && toks[j].1 != Token::REAL
}

/// How one token is listed: `lexeme/NAME`, or `-/- digits/NAME` for a negative literal
/// on a line that holds an operator.
pub open spec fn shown(p: (Seq<char>, Token), split: bool) -> Seq<char> {
    if split && (p.1 == Token::INT || p.1 == Token::REAL) && p.0.len() > 0 && p.0[0] == '-' {
        "-/- "@ + p.0.drop_first() + seq!['/'] + token_name(p.1)
    } else {
        p.0 + seq!['/'] + token_name(p.1)
    }
}

/// The listing of one line: its tokens, each shown, separated by single spaces.
pub open spec fn scan_line(line: Seq<char>) -> Seq<char> {
    let toks = lex(line);
    join(toks.map_values(|p: (Seq<char>, Token)| shown(p, has_operator(toks))), " "@)
}

pub(crate) proof fn lemma_first_newline(s: Seq<char>, i: int)
    requires
        0 <= i <= s.len(),
    ensures
        i <= first_newline(s, i) <= s.len(),
        first_newline(s, i) < s.len() ==> s[first_newline(s, i)] == '\n',
        forall|j: int| i <= j < first_newline(s, i) ==> s[j] != '\n',
    decreases s.len() - i,
{
    if i < s.len() && s[i] != '\n' {
        lemma_first_newline(s, i + 1);
    }
}

fn has_operator_exec(toks: &Vec<(String, Token)>) -> (b: bool)
    ensures
        b == has_operator(pairs_view(toks@)),
{
    let ghost v = pairs_view(toks@);
    for j in 0..toks.len()
        invariant
            v == pairs_view(toks@),
            forall|k: int| 0 <= k < j ==> v[k].1 == Token::INT || v[k].1 == Token::REAL,
    {
        if toks[j].1 != Token::INT && toks[j].1 != Token::REAL {
            assert(v[j as int].1 != Token::INT && v[j as int].1 != Token::REAL);
            return true;
        }
    }
    false
}

fn push_shown(out: &mut Vec<char>, p: &(String, Token), split: bool)
    ensures
        final(out)@ == old(out)@ + shown((p.0@, p.1), split),
{
    let lexeme = chars_of(p.0.as_str());
    if split && (p.1 == Token::INT || p.1 == Token::REAL) && lexeme.len() > 0 && lexeme[0] == '-' {
        push_str(out, "-/- ");
        let ghost mid = out@;
        for j in 1..lexeme.len()
            invariant
                out@ == mid + lexeme@.subrange(1, j as int),
        {
            out.push(lexeme[j]);
            assert(lexeme@.subrange(1, j + 1) == lexeme@.subrange(1, j as int).push(lexeme@[j as int]));
        }
        assert(lexeme@.subrange(1, lexeme.len() as int) == lexeme@.drop_first());
    } else {
        push_all(out, &lexeme);
    }
    out.push('/');
    push_str(out, token_name_of(p.1));
}

/// The listing of one line of characters.
fn scan_line_exec(line: &Vec<char>) -> (r: String)
    ensures
        r@ == scan_line(line@),
{
    let toks = lex_chars(line);
    let split = has_operator_exec(&toks);
    let ghost v = pairs_view(toks@);
    let ghost items = v.map_values(|p: (Seq<char>, Token)| shown(p, split));
    let mut out: Vec<char> = Vec::new();
    for i in 0..toks.len()
        invariant
            v == pairs_view(toks@),
            items == v.map_values(|p: (Seq<char>, Token)| shown(p, split)),
            out@ == join(items.take(i as int), " "@),
    {
        if i > 0 {
            push_str(&mut out, " ");
        }
        push_shown(&mut out, &toks[i], split);
        assert(items.take(i + 1).drop_last() == items.take(i as int));
        assert(items.take(i + 1).last() == items[i as int]);
        assert(i == 0 ==> items.take(i + 1).len() == 1 && items.take(i + 1)[0] == items[i as int]);
    }
    assert(items.take(toks.len() as int) == items);
    string_of(&out)
}

/// The lines of `input` (`str::lines`).
pub fn split_lines(input: &str) -> (r: Vec<String>)
    ensures
        string_views(r@) == lines_of(input@),
{
    let s = chars_of(input);
    let mut r: Vec<String> = Vec::new();
    let mut i: usize = 0;
    assert(string_views(r@) =~= Seq::<Seq<char>>::empty());
    while i < s.len()
        invariant
            i <= s.len(),
            s@ == input@,
            lines_of(s@) == string_views(r@) + lines_from(s@, i as int),
        decreases s.len() - i,
    {
        proof { lemma_first_newline(s@, i as int); }
        let mut e = i;
        while e < s.len() && s[e] != '\n'
            invariant
                i <= e <= s.len(),
                first_newline(s@, i as int) == first_newline(s@, e as int),
            decreases s.len() - e,
        {
            e = e + 1;
        }
        let end = if e < s.len() && e > i && s[e - 1] == '\r' { e - 1 } else { e };
        let mut line: Vec<char> = Vec::new();
        let mut j = i;
        while j < end
            invariant
                i <= j <= end <= s.len(),
                line@ == s@.subrange(i as int, j as int),
            decreases end - j,
        {
            line.push(s[j]);
            assert(s@.subrange(i as int, j + 1) == s@.subrange(i as int, j as int).push(s@[j as int]));
            j = j + 1;
        }
        let ghost old_r = r@;
        r.push(string_of(&line));
        proof {
            let rest = if e >= s.len() { Seq::empty() } else { lines_from(s@, (e + 1) as int) };
            assert(lines_from(s@, i as int) == seq![line@] + rest);
            assert(string_views(r@) == string_views(old_r).push(line@));
            assert(string_views(old_r) + (seq![line@] + rest) == string_views(old_r).push(line@) + rest);
        }
        if e >= s.len() {
            i = s.len();
        } else {
            i = e + 1;
        }
    }
    proof {
        assert(lines_from(s@, i as int) == Seq::<Seq<char>>::empty());
        assert(string_views(r@) + Seq::<Seq<char>>::empty() == string_views(r@));
    }
    r
}

/// The token listing of `input`, one string per line: each token as `lexeme/NAME`,
/// separated by single spaces (see `scan_line`).
pub fn run_scanner(input: &str) -> (r: Vec<String>)
    ensures
        string_views(r@) == lines_of(input@).map_values(|l: Seq<char>| scan_line(l)),
{
    let lines = split_lines(input);
    let ghost lv = string_views(lines@);
    let mut r: Vec<String> = Vec::new();
    for i in 0..lines.len()
        invariant
            lv == string_views(lines@),
            lv == lines_of(input@),
            string_views(r@) == lv.take(i as int).map_values(|l: Seq<char>| scan_line(l)),
    {
        let cs = chars_of(lines[i].as_str());
        let text = scan_line_exec(&cs);
        let ghost old_r = r@;
        r.push(text);
        proof {
            assert(lv[i as int] == cs@);
            assert(lv.take(i + 1) == lv.take(i as int).push(lv[i as int]));
            assert(string_views(r@) =~= string_views(old_r).push(scan_line(cs@)));
            assert(lv.take(i + 1).map_values(|l: Seq<char>| scan_line(l))
                =~= lv.take(i as int).map_values(|l: Seq<char>| scan_line(l)).push(scan_line(lv[i as int])));
        }
    }
    assert(lv.take(lines.len() as int) == lv);
    r
}

// ---------------------------------------------------------------------------------
// Laws
// ---------------------------------------------------------------------------------

/// The characters of `s` from index `i` on, blanks left out.
pub open spec fn solid_chars(s: Seq<char>, i: int) -> Seq<char>
    decreases s.len() - i,
{
    if i < 0 || i >= s.len() {
        Seq::empty()
    } else {
        (if is_space(s[i]) { Seq::empty() } else { seq![s[i]] }) + solid_chars(s, i + 1)
    }
}

/// The lexemes of `toks`, one after another.
pub open spec fn lexemes(toks: Seq<(Seq<char>, Token)>) -> Seq<char>
    decreases toks.len(),
{
    if toks.len() == 0 { Seq::empty() } else { toks[0].0 + lexemes(toks.drop_first()) }
}

proof fn lemma_digit_run(s: Seq<char>, i: int)
    requires
        0 <= i,
    ensures
        forall|j: int| i <= j < i + digits_from(s, i) ==> is_digit(#[trigger] s[j]),
    decreases s.len() - i,
{
    if 0 <= i < s.len() && is_digit(s[i]) {
        lemma_digit_run(s, i + 1);
    }
}

proof fn lemma_alnum_run(s: Seq<char>, i: int)
    requires
        0 <= i,
    ensures
        forall|j: int| i <= j < i + alnums_from(s, i) ==> is_alnum(#[trigger] s[j]),
    decreases s.len() - i,
{
    if 0 <= i < s.len() && is_alnum(s[i]) {
        lemma_alnum_run(s, i + 1);
    }
}

/// A token holds no blank.
proof fn lemma_token_solid(s: Seq<char>, i: int)
    requires
        0 <= i < s.len(),
        !is_space(s[i]),
    ensures
        forall|j: int| i <= j < i + token_at(s, i).0 ==> !is_space(#[trigger] s[j]),
{
    let c = s[i];
    lemma_digit_run(s, i);
    lemma_digit_run(s, i + 1);
    lemma_alnum_run(s, i);
    if is_digit(c) || (c == '-' && 0 <= i + 1 < s.len() && is_digit(s[i + 1])) {
        let d = if is_digit(c) { i } else { i + 1 };
        let e = d + digits_from(s, d);
        lemma_digit_run(s, d);
        lemma_digit_run(s, e + 1);
        assert forall|j: int| i <= j < i + token_at(s, i).0 implies !is_space(#[trigger] s[j]) by {
            if j < d {
                assert(j == i);
            } else if j < e {
                assert(is_digit(s[j]));
            } else if j == e {
                assert(s[j] == '.');
            } else {
                assert(is_digit(s[j]));
            }
        }
    } else if is_alpha(c) {
        assert forall|j: int| i <= j < i + token_at(s, i).0 implies !is_space(#[trigger] s[j]) by {
            assert(is_alnum(s[j]));
        }
    } else {
        assert forall|j: int| i <= j < i + token_at(s, i).0 implies !is_space(#[trigger] s[j]) by {
            if j > i {
                assert(j == i + 1);
                assert(s[j] == '/' || s[j] == '=');
            }
        }
    }
}

proof fn lemma_solid_prefix(s: Seq<char>, i: int, j: int)
    requires
        0 <= i <= j <= s.len(),
        forall|k: int| i <= k < j ==> !is_space(#[trigger] s[k]),
    ensures
        solid_chars(s, i) == s.subrange(i, j) + solid_chars(s, j),
    decreases j - i,
{
    if i < j {
        lemma_solid_prefix(s, i + 1, j);
        assert(seq![s[i]] + (s.subrange(i + 1, j) + solid_chars(s, j)) =~= s.subrange(i, j) + solid_chars(s, j));
    } else {
        assert(s.subrange(i, j) + solid_chars(s, j) =~= solid_chars(s, j));
    }
}

proof fn lemma_lexemes_from(s: Seq<char>, i: int)
    requires
        0 <= i,
    ensures
        lexemes(lex_from(s, i)) == solid_chars(s, i),
    decreases s.len() - i,
{
    if i < s.len() {
        if is_space(s[i]) {
            lemma_lexemes_from(s, i + 1);
            assert(solid_chars(s, i) =~= solid_chars(s, i + 1));
        } else {
            lemma_token_at_positive(s, i);
            lemma_token_solid(s, i);
            let k = token_at(s, i).0;
            let t = token_at(s, i).1;
            lemma_lexemes_from(s, i + k);
            lemma_solid_prefix(s, i, i + k);
            let rest = lex_from(s, i + k);
            let toks = seq![(s.subrange(i, i + k), t)] + rest;
            assert(lex_from(s, i) == toks);
            assert(toks.drop_first() =~= rest);
            assert(toks[0].0 == s.subrange(i, i + k));
        }
    }
}

/// The lexer loses nothing but blanks: the lexemes of the tokens, one after another,
/// spell the input with its blanks (spaces, tabs, carriage returns, form feeds) left
/// out.
pub proof fn law_lexemes_spell_input(s: Seq<char>)
    ensures
        lexemes(lex(s)) == solid_chars(s, 0),
{
    lemma_lexemes_from(s, 0);
}

/// The listing has one line for each line of the input.
pub proof fn law_one_listing_per_line(s: Seq<char>)
    ensures
        lines_of(s).map_values(|l: Seq<char>| scan_line(l)).len() == lines_of(s).len(),
{
}


/// A line free of line breaks is one line.
proof fn lemma_one_line(a: Seq<char>)
    requires
        a.len() > 0,
        crate::vm::no_newline(a),
    ensures
        lines_of(a) == seq![a],
{
    crate::vm::lemma_first_newline_is(a, 0, a.len() as int);
    assert(a.subrange(0, a.len() as int) =~= a);
}

/// Two lines joined by a line break are listed as the first line's listing followed by
/// the second's (when the first is not empty and neither holds a line break or a
/// carriage return).
pub proof fn law_scan_two_lines(a: Seq<char>, b: Seq<char>)
    requires
        a.len() > 0,
        forall|k: int| 0 <= k < a.len() ==> a[k] != '\n' && a[k] != '\r',
        forall|k: int| 0 <= k < b.len() ==> b[k] != '\n' && b[k] != '\r',
    ensures
        lines_of(a + "\n"@ + b).map_values(|l: Seq<char>| scan_line(l))
            == lines_of(a).map_values(|l: Seq<char>| scan_line(l)) + lines_of(b).map_values(|l: Seq<char>| scan_line(l)),
{
    reveal_strlit("\n");
    assert(crate::vm::no_newline(a));
    assert(crate::vm::no_newline(b));
    lemma_one_line(a);
    let s = a + "\n"@ + b;
    if b.len() > 0 {
        lemma_one_line(b);
        assert(a.last() == a[a.len() - 1]);
        crate::vm::lemma_lines_then_line(a, b, 0);
        assert(lines_of(s) =~= seq![a, b]);
    } else {
        assert(lines_of(b) =~= Seq::<Seq<char>>::empty());
        assert(s =~= a.push('\n'));
        crate::vm::lemma_first_newline_is(s, 0, a.len() as int);
        assert(s.subrange(0, a.len() as int) =~= a);
        assert(lines_from(s, a.len() as int + 1) =~= Seq::<Seq<char>>::empty());
        assert(lines_of(s) =~= seq![a]);
    }
    assert(lines_of(s).map_values(|l: Seq<char>| scan_line(l))
        =~= lines_of(a).map_values(|l: Seq<char>| scan_line(l)) + lines_of(b).map_values(|l: Seq<char>| scan_line(l)));
}


// --- spaces added next to spaces ---

/// `s` with one more space before the space at `p` (unchanged when `s` has no space
/// there).
pub open spec fn one_more_space(s: Seq<char>, p: int) -> Seq<char> {
    if 0 <= p < s.len() && s[p] == ' ' { s.take(p) + seq![' '] + s.skip(p) } else { s }
}

/// `s` with spaces added next to its spaces, one at each of the positions `ps` in
/// turn: any run of spaces can be widened this way.
pub open spec fn widened(s: Seq<char>, ps: Seq<int>) -> Seq<char>
    decreases ps.len(),
{
    if ps.len() == 0 { s } else { widened(one_more_space(s, ps[0]), ps.drop_first()) }
}

/// `s` from `a` and `t` from `b` hold the same `n` characters, and those end either
/// where both texts end or with a blank.
spec fn agree(s: Seq<char>, a: int, t: Seq<char>, b: int, n: int) -> bool {
    &&& 0 <= a && 0 <= b && 0 <= n && a + n <= s.len() && b + n <= t.len()
    &&& forall|j: int| a <= j < a + n ==> #[trigger] s[j] == t[j - a + b]
    &&& (a + n == s.len() && b + n == t.len()) || (n > 0 && is_space(s[a + n - 1]))
}

spec fn ends(s: Seq<char>, a: int, t: Seq<char>, b: int, n: int) -> bool {
    a + n == s.len() && b + n == t.len()
}

proof fn lemma_pos_agree(s: Seq<char>, a: int, t: Seq<char>, b: int, n: int, m: int)
    requires
        agree(s, a, t, b, n),
        0 <= m <= n,
        m < n || ends(s, a, t, b, n),
    ensures
        (a + m < s.len()) == (b + m < t.len()),
        a + m < s.len() ==> s[a + m] == t[b + m],
{
    if m < n {
        assert(s[a + m] == t[(a + m) - a + b]);
    }
}

proof fn lemma_digits_agree(s: Seq<char>, a: int, t: Seq<char>, b: int, n: int, k: int)
    requires
        agree(s, a, t, b, n),
        0 <= k <= n,
        k < n || ends(s, a, t, b, n),
    ensures
        digits_from(s, a + k) == digits_from(t, b + k),
        k + digits_from(s, a + k) <= n,
        k + digits_from(s, a + k) < n || ends(s, a, t, b, n),
    decreases n - k,
{
    lemma_pos_agree(s, a, t, b, n, k);
    if k < n && is_digit(s[a + k]) {
        lemma_digits_agree(s, a, t, b, n, k + 1);
    }
}

proof fn lemma_alnums_agree(s: Seq<char>, a: int, t: Seq<char>, b: int, n: int, k: int)
    requires
        agree(s, a, t, b, n),
        0 <= k <= n,
        k < n || ends(s, a, t, b, n),
    ensures
        alnums_from(s, a + k) == alnums_from(t, b + k),
        k + alnums_from(s, a + k) <= n,
        k + alnums_from(s, a + k) < n || ends(s, a, t, b, n),
    decreases n - k,
{
    lemma_pos_agree(s, a, t, b, n, k);
    if k < n && is_alnum(s[a + k]) {
        lemma_alnums_agree(s, a, t, b, n, k + 1);
    }
}

proof fn lemma_number_agree(s: Seq<char>, a: int, t: Seq<char>, b: int, n: int, dd: int)
    requires
        agree(s, a, t, b, n),
        0 <= dd <= 1,
        n >= 1,
        dd < n || ends(s, a, t, b, n),
    ensures
        number_at(s, a, a + dd) == number_at(t, b, b + dd),
{
    lemma_digits_agree(s, a, t, b, n, dd);
    let m = dd + digits_from(s, a + dd);
    lemma_pos_agree(s, a, t, b, n, m);
    assert(a + dd + digits_from(s, a + dd) == a + m);
    assert(b + dd + digits_from(t, b + dd) == b + m);
    if at(s, a + m, '.') {
        assert(m < n);
        if m + 1 < n || ends(s, a, t, b, n) {
            lemma_pos_agree(s, a, t, b, n, m + 1);
            lemma_digits_agree(s, a, t, b, n, m + 1);
        } else {
            assert(is_space(s[a + n - 1]));
        }
    }
}

/// A token that starts where `s` and `t` agree is the same token in both.
proof fn lemma_token_agree(s: Seq<char>, a: int, t: Seq<char>, b: int, n: int)
    requires
        agree(s, a, t, b, n),
        n >= 1,
        !is_space(s[a]),
    ensures
        token_at(s, a) == token_at(t, b),
        token_at(s, a).0 <= n,
{
    lemma_pos_agree(s, a, t, b, n, 0);
    assert(1 < n || ends(s, a, t, b, n));
    lemma_pos_agree(s, a, t, b, n, 1);
    lemma_alnums_agree(s, a, t, b, n, 0);
    lemma_digits_agree(s, a, t, b, n, 0);
    lemma_digits_agree(s, a, t, b, n, 1);
    let c = s[a];
    if is_digit(c) {
        lemma_number_agree(s, a, t, b, n, 0);
    } else if c == '-' && 0 <= a + 1 < s.len() && is_digit(s[a + 1]) {
        lemma_number_agree(s, a, t, b, n, 1);
    } else if is_alpha(c) {
        let k = alnums_from(s, a);
        if k == 4 {
            lemma_pos_agree(s, a, t, b, n, 2);
            lemma_pos_agree(s, a, t, b, n, 3);
        }
    }
    lemma_token_at_positive(s, a);
    lemma_token_solid(s, a);
    if !ends(s, a, t, b, n) {
        assert(is_space(s[a + n - 1]));
        if token_at(s, a).0 > n {
            assert(!is_space(s[a + n - 1]));
        }
    }
}

/// The tokens of two texts from points past which they are the same.
proof fn lemma_lex_same_rest(s: Seq<char>, a: int, t: Seq<char>, b: int)
    requires
        0 <= a <= s.len(),
        0 <= b <= t.len(),
        s.skip(a) == t.skip(b),
    ensures
        lex_from(s, a) == lex_from(t, b),
    decreases s.len() - a,
{
    assert(s.skip(a).len() == s.len() - a);
    assert(t.skip(b).len() == t.len() - b);
    assert(s.len() - a == t.len() - b);
    if a < s.len() {
        assert(s.skip(a)[0] == s[a]);
        assert(t.skip(b)[0] == t[b]);
        assert(s[a] == t[b]);
        assert(s.skip(a + 1) =~= s.skip(a).drop_first());
        assert(t.skip(b + 1) =~= t.skip(b).drop_first());
        if is_space(s[a]) {
            lemma_lex_same_rest(s, a + 1, t, b + 1);
        } else {
            let n = s.len() - a;
            assert forall|j: int| a <= j < a + n implies #[trigger] s[j] == t[j - a + b] by {
                assert(s.skip(a)[j - a] == s[j]);
                assert(t.skip(b)[j - a] == t[j - a + b]);
            }
            lemma_token_agree(s, a, t, b, n);
            lemma_token_at_positive(s, a);
            let k = token_at(s, a).0;
            assert(s.subrange(a, a + k) =~= t.subrange(b, b + k)) by {
                assert forall|j: int| 0 <= j < k implies #[trigger] s.subrange(a, a + k)[j] == t.subrange(b, b + k)[j] by {
                    assert(s.skip(a)[j] == t.skip(b)[j]);
                }
            }
            assert(s.skip(a + k) =~= t.skip(b + k)) by {
                assert forall|j: int| 0 <= j < s.len() - (a + k) implies #[trigger] s.skip(a + k)[j] == t.skip(b + k)[j] by {
                    assert(s.skip(a)[j + k] == t.skip(b)[j + k]);
                }
            }
            lemma_lex_same_rest(s, a + k, t, b + k);
        }
    }
}

/// One more space before the space at `i` changes no token from `j` (at or before `i`)
/// on.
proof fn lemma_lex_one_more_space(s: Seq<char>, i: int, j: int)
    requires
        0 <= j <= i < s.len(),
        s[i] == ' ',
    ensures
        lex_from(s.take(i) + seq![' '] + s.skip(i), j) == lex_from(s, j),
    decreases i - j,
{
    let s1 = s.take(i) + seq![' '] + s.skip(i);
    assert(s1.len() == s.len() + 1);
    assert(forall|k: int| 0 <= k < i ==> s1[k] == s[k]);
    assert(s1[i] == ' ');
    assert(forall|k: int| i <= k < s.len() ==> s1[k + 1] == s[k]);
    if j == i {
        assert(s1.skip(i + 2) =~= s.skip(i + 1));
        lemma_lex_same_rest(s1, i + 2, s, i + 1);
        assert(lex_from(s1, i + 1) == lex_from(s1, i + 2));
        assert(lex_from(s1, i) == lex_from(s1, i + 1));
        assert(lex_from(s, i) == lex_from(s, i + 1));
    } else {
        assert(s1[j] == s[j]);
        if is_space(s[j]) {
            lemma_lex_one_more_space(s, i, j + 1);
        } else {
            let n = i - j + 1;
            assert forall|x: int| j <= x < j + n implies #[trigger] s[x] == s1[x - j + j] by {
                if x < i {
                    assert(s1[x] == s[x]);
                }
            }
            lemma_token_agree(s, j, s1, j, n);
            lemma_token_solid(s, j);
            lemma_token_at_positive(s, j);
            let k = token_at(s, j).0;
            if j + k > i {
                assert(!is_space(s[i]));
            }
            assert(s1.subrange(j, j + k) =~= s.subrange(j, j + k));
            lemma_lex_one_more_space(s, i, j + k);
        }
    }
}

/// Adding spaces next to spaces changes no token.
pub proof fn law_widened_same_tokens(s: Seq<char>, ps: Seq<int>)
    ensures
        lex(widened(s, ps)) == lex(s),
    decreases ps.len(),
{
    if ps.len() > 0 {
        let p = ps[0];
        law_widened_same_tokens(one_more_space(s, p), ps.drop_first());
        if 0 <= p < s.len() && s[p] == ' ' {
            lemma_lex_one_more_space(s, p, 0);
        }
    }
}

/// Adding spaces keeps a text free of line breaks, and makes it no shorter.
proof fn lemma_widened_one_line(s: Seq<char>, ps: Seq<int>)
    requires
        crate::vm::no_newline(s),
    ensures
        crate::vm::no_newline(widened(s, ps)),
        widened(s, ps).len() >= s.len(),
    decreases ps.len(),
{
    if ps.len() > 0 {
        let p = ps[0];
        let s1 = one_more_space(s, p);
        if 0 <= p < s.len() && s[p] == ' ' {
            assert(s1.len() == s.len() + 1);
            assert(forall|k: int| 0 <= k < p ==> s1[k] == s[k]);
            assert(forall|k: int| p <= k < s.len() ==> s1[k + 1] == s[k]);
            assert forall|k: int| 0 <= k < s1.len() implies #[trigger] s1[k] != '\n' by {
                if k < p {
                    assert(s1[k] == s[k]);
                } else if k > p {
                    assert(s1[(k - 1) + 1] == s[k - 1]);
                }
            }
        }
        lemma_widened_one_line(s1, ps.drop_first());
    }
}

/// Adding spaces next to spaces in a line leaves its listing as it is.
pub proof fn law_widened_same_listing(s: Seq<char>, ps: Seq<int>)
    requires
        forall|k: int| 0 <= k < s.len() ==> s[k] != '\n',
    ensures
        lines_of(widened(s, ps)).map_values(|l: Seq<char>| scan_line(l)) == lines_of(s).map_values(|l: Seq<char>| scan_line(l)),
{
    let t = widened(s, ps);
    assert(crate::vm::no_newline(s));
    lemma_widened_one_line(s, ps);
    law_widened_same_tokens(s, ps);
    if s.len() > 0 {
        lemma_one_line(s);
        lemma_one_line(t);
        assert(scan_line(t) == scan_line(s));
        assert(lines_of(t).map_values(|l: Seq<char>| scan_line(l)) =~= lines_of(s).map_values(|l: Seq<char>| scan_line(l)));
    } else {
        assert(s =~= Seq::<char>::empty());
        lemma_widened_empty(ps);
        assert(t == s);
    }
}

proof fn lemma_widened_empty(ps: Seq<int>)
    ensures
        widened(Seq::<char>::empty(), ps) == Seq::<char>::empty(),
    decreases ps.len(),
{
    if ps.len() > 0 {
        assert(one_more_space(Seq::<char>::empty(), ps[0]) == Seq::<char>::empty());
        lemma_widened_empty(ps.drop_first());
    }
}

}
