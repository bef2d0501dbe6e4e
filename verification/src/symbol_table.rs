//! The symbol table: one entry for each assignment that parsed, with its place, length,
//! type and value, and the type of each variable assigned so far.
use vstd::prelude::*;
use crate::parser::{Expr, ExprV, ParseError, ParseErrorV, results_view};
use crate::number::{Real, RealV, real_text};
use crate::text::{int_text, nat_text, byte_len, byte_count, string_views, chars_of, string_of, push_str, push_int,
    push_nat, push_all, owned, digit, digit_char};

verus! {

/// The type of a variable: a number, or a list of numbers of one type.
#[derive(Debug)]
pub enum VariableType {
    INT,
    REAL,
    LIST(Box<VariableType>),
}

impl VariableType {
    /// A copy of this type.
    pub fn copy(&self) -> (r: VariableType)
        ensures
            r == *self,
        decreases self,
    {
        match self {
            VariableType::INT => VariableType::INT,
            VariableType::REAL => VariableType::REAL,
            VariableType::LIST(t) => VariableType::LIST(Box::new(t.copy())),
        }
    }
}

/// The token recorded for an entry's value: a number token with its text, or `LIST`.
#[derive(Debug)]
pub enum ValueToken {
    INT(String),
    REAL(String),
    LIST,
}

pub enum ValueTokenV {
    INT(Seq<char>),
    REAL(Seq<char>),
    LIST,
}

impl View for ValueToken {
    type V = ValueTokenV;

    open spec fn view(&self) -> ValueTokenV {
        match self {
            ValueToken::INT(s) => ValueTokenV::INT(s@),
            ValueToken::REAL(s) => ValueTokenV::REAL(s@),
            ValueToken::LIST => ValueTokenV::LIST,
        }
    }
}

/// One line of the table.
#[derive(Debug)]
pub struct SymbolTableEntry {
    lexeme: String,
    line_number: usize,
    start_pos: usize,
    length: usize,
    value_type: ValueToken,
    value: String,
}

pub struct EntryV {
    pub lexeme: Seq<char>,
    pub line_number: usize,
    pub start_pos: usize,
    pub length: usize,
    pub value_type: ValueTokenV,
    pub value: Seq<char>,
}

impl View for SymbolTableEntry {
    type V = EntryV;

    closed spec fn view(&self) -> EntryV {
        EntryV {
            lexeme: self.lexeme@,
            line_number: self.line_number,
            start_pos: self.start_pos,
            length: self.length,
            value_type: self.value_type@,
            value: self.value@,
        }
    }
}

/// The table: its entries in order, and each variable's type (by first assignment).
pub struct SymbolTable {
    entries: Vec<SymbolTableEntry>,
    variables: Vec<(String, VariableType)>,
}

pub open spec fn entries_view(v: Seq<SymbolTableEntry>) -> Seq<EntryV> {
    v.map_values(|e: SymbolTableEntry| e@)
}

pub open spec fn types_view(v: Seq<(String, VariableType)>) -> Seq<(Seq<char>, VariableType)> {
    v.map_values(|p: (String, VariableType)| (p.0@, p.1))
}

// ---------------------------------------------------------------------------------
// Variable types
// ---------------------------------------------------------------------------------

/// The index of the first variable called `name` at or after `i`, or `vs.len()`.
pub open spec fn type_index_from(vs: Seq<(Seq<char>, VariableType)>, name: Seq<char>, i: int) -> int
    decreases vs.len() - i,
{
    if i < 0 || i >= vs.len() {
        vs.len() as int
    } else if vs[i].0 == name {
        i
    } else {
        type_index_from(vs, name, i + 1)
    }
}

/// The type recorded for `name`, if any.
pub open spec fn type_of(vs: Seq<(Seq<char>, VariableType)>, name: Seq<char>) -> Option<VariableType> {
    let k = type_index_from(vs, name, 0);
    if 0 <= k < vs.len() { Some(vs[k].1) } else { None }
}

/// `vs` with the type of `name` set to `t` (added at the end for a new name).
pub open spec fn set_type(vs: Seq<(Seq<char>, VariableType)>, name: Seq<char>, t: VariableType)
    -> Seq<(Seq<char>, VariableType)> {
    let k = type_index_from(vs, name, 0);
    if 0 <= k < vs.len() { vs.update(k, (name, t)) } else { vs.push((name, t)) }
}

// ---------------------------------------------------------------------------------
// Recording assignments
// ---------------------------------------------------------------------------------

/// `x`, cut down to the largest `usize`.
pub open spec fn sat(x: int) -> int {
    if x > usize::MAX { usize::MAX as int } else { x }
}

/// All elements are whole numbers.
pub open spec fn all_whole(els: Seq<RealV>) -> bool {
    forall|k: int| 0 <= k < els.len() ==> (#[trigger] els[k]).frac.len() == 0
}

/// What an assignment of `value` to `name` records: the value's token, the value as
/// text, its length, and the variable types afterwards. Other values are not recorded.
pub open spec fn recorded(vs: Seq<(Seq<char>, VariableType)>, name: Seq<char>, value: ExprV)
    -> Option<(ValueTokenV, Seq<char>, int, Seq<(Seq<char>, VariableType)>)> {
    match value {
        ExprV::Int(n) => {
            let t = int_text(n as int);
            Some((ValueTokenV::INT(t), t, t.len() as int, set_type(vs, name, VariableType::INT)))
        },
        ExprV::Float(r) => {
            let t = real_text(r);
            Some((ValueTokenV::REAL(t), t, t.len() as int, set_type(vs, name, VariableType::REAL)))
        },
        ExprV::List(els) => {
            let elt = if all_whole(els) { VariableType::INT } else { VariableType::REAL };
            Some((ValueTokenV::LIST, "Array"@, 5, set_type(vs, name, VariableType::LIST(Box::new(elt)))))
        },
        ExprV::ListAccess(l, index) => {
            let elt = match type_of(vs, l) {
                Some(VariableType::LIST(t)) => *t,
                _ => VariableType::INT,
            };
            let iv = match *index {
                ExprV::Int(n) => int_text(n as int),
                _ => "unknown"@,
            };
            let tok = match elt {
                VariableType::INT => ValueTokenV::INT(iv),
                VariableType::REAL => ValueTokenV::REAL(iv),
                VariableType::LIST(_) => ValueTokenV::LIST,
            };
            Some((tok, l + "["@ + iv + "]"@, sat((byte_len(l) as usize) + iv.len() + 2), vs))
        },
        _ => None,
    }
}

/// Records the assignments among the outcomes from index `i` on (line numbers count
/// outcomes from 1; the start position runs on by each value's length plus one).
pub open spec fn process_from(results: Seq<Result<ExprV, ParseErrorV>>, i: int, entries: Seq<EntryV>,
    vs: Seq<(Seq<char>, VariableType)>, pos: int) -> (Seq<EntryV>, Seq<(Seq<char>, VariableType)>)
    decreases results.len() - i,
{
    if i < 0 || i >= results.len() {
        (entries, vs)
    } else {
        match results[i] {
            Ok(ExprV::Assignment(name, value)) => match recorded(vs, name, *value) {
                Some((tok, text, length, vs2)) => {
                    let e = EntryV {
                        lexeme: name,
                        line_number: (i + 1) as usize,
                        start_pos: pos as usize,
                        length: sat(length) as usize,
                        value_type: tok,
                        value: text,
                    };
                    process_from(results, i + 1, entries.push(e), vs2, sat(pos + sat(length) + 1))
                },
                None => process_from(results, i + 1, entries, vs, pos),
            },
            _ => process_from(results, i + 1, entries, vs, pos),
        }
    }
}

// ---------------------------------------------------------------------------------
// Output
// ---------------------------------------------------------------------------------

/// The lowercase hexadecimal numeral of `n`.
pub open spec fn hex_text(n: nat) -> Seq<char>
    decreases n,
{
    if n < 16 {
        seq![hex_digit(n)]
    } else {
        hex_text(n / 16).push(hex_digit(n % 16))
    }
}

pub open spec fn hex_digit(d: nat) -> char {
    if d < 10 { digit_char(d) } else if d == 10 { 'a' } else if d == 11 { 'b' } else if d == 12 { 'c' }
    else if d == 13 { 'd' } else if d == 14 { 'e' } else { 'f' }
}

/// How one character is written inside a quoted string: backslash escapes for the
/// quote, the backslash, tab, carriage return, line feed and NUL, `\u{..}` for the
/// other ASCII control characters, the character itself otherwise.
pub open spec fn escape_char(c: char) -> Seq<char> {
    if c == '"' {
        seq!['\\', '"']
    } else if c == '\\' {
        seq!['\\', '\\']
    } else if c == '\t' {
        seq!['\\', 't']
    } else if c == '\r' {
        seq!['\\', 'r']
    } else if c == '\n' {
        seq!['\\', 'n']
    } else if c == '\0' {
        seq!['\\', '0']
    } else if (c as u32) < 0x20 || (c as u32) == 0x7f {
        seq!['\\', 'u', '{'] + hex_text(c as u32 as nat) + seq!['}']
    } else {
        seq![c]
    }
}

/// `s` escaped character by character.
pub open spec fn escaped(s: Seq<char>) -> Seq<char>
    decreases s.len(),
{
    if s.len() == 0 {
        Seq::empty()
    } else {
        escaped(s.drop_last()) + escape_char(s.last())
    }
}

/// `s` in double quotes, escaped character by character.
pub open spec fn quoted(s: Seq<char>) -> Seq<char> {
    seq!['"'] + escaped(s) + seq!['"']
}

/// A value token as it is written in the table: `INT("5")`, `REAL("2.5")`, `LIST`.
pub open spec fn token_text(t: ValueTokenV) -> Seq<char> {
    match t {
        ValueTokenV::INT(s) => "INT("@ + quoted(s) + ")"@,
        ValueTokenV::REAL(s) => "REAL("@ + quoted(s) + ")"@,
        ValueTokenV::LIST => "LIST"@,
    }
}

/// The name of a value token's kind: `INT`, `REAL` or `LIST`.
pub open spec fn token_name(t: ValueTokenV) -> Seq<char> {
    match t {
        ValueTokenV::INT(_) => "INT"@,
        ValueTokenV::REAL(_) => "REAL"@,
        ValueTokenV::LIST => "LIST"@,
    }
}

/// An entry as one line: lexeme, line, start, length, token and value, comma-separated.
pub open spec fn entry_line(e: EntryV) -> Seq<char> {
    e.lexeme + ","@ + nat_text(e.line_number as nat) + ","@ + nat_text(e.start_pos as nat) + ","@
        + nat_text(e.length as nat) + ","@ + token_text(e.value_type) + ","@ + e.value
}

/// An entry as a record of six fields (the token by its kind's name).
pub open spec fn entry_record(e: EntryV) -> Seq<Seq<char>> {
    seq![e.lexeme, nat_text(e.line_number as nat), nat_text(e.start_pos as nat), nat_text(e.length as nat),
        token_name(e.value_type), e.value]
}

/// The header record of the table.
pub open spec fn header_record() -> Seq<Seq<char>> {
    seq!["Lexeme"@, "Line Number"@, "Start Position"@, "Length"@, "Type"@, "Value"@]
}

// ---------------------------------------------------------------------------------
// Writing
// ---------------------------------------------------------------------------------

fn hex_digit_exec(d: u32) -> (c: char)
    requires
        d < 16,
    ensures
        c == hex_digit(d as nat),
{
    if d < 10 { digit(d as u64) } else if d == 10 { 'a' } else if d == 11 { 'b' } else if d == 12 { 'c' }
    else if d == 13 { 'd' } else if d == 14 { 'e' } else { 'f' }
}

fn push_hex(out: &mut Vec<char>, n: u32)
    ensures
        final(out)@ == old(out)@ + hex_text(n as nat),
    decreases n,
{
    if n >= 16 {
        push_hex(out, n / 16);
    }
    out.push(hex_digit_exec(n % 16));
    assert(n >= 16 ==> hex_text(n as nat) == hex_text((n / 16) as nat).push(hex_digit((n % 16) as nat)));
}

fn push_escaped_char(out: &mut Vec<char>, c: char)
    ensures
        final(out)@ == old(out)@ + escape_char(c),
{
    let ghost start = out@;
    if c == '"' {
        out.push('\\');
        out.push('"');
    } else if c == '\\' {
        out.push('\\');
        out.push('\\');
    } else if c == '\t' {
        out.push('\\');
        out.push('t');
    } else if c == '\r' {
        out.push('\\');
        out.push('r');
    } else if c == '\n' {
        out.push('\\');
        out.push('n');
    } else if c == '\0' {
        out.push('\\');
        out.push('0');
    } else if (c as u32) < 0x20 || (c as u32) == 0x7f {
        out.push('\\');
        out.push('u');
        out.push('{');
        push_hex(out, c as u32);
        out.push('}');
    } else {
        out.push(c);
    }
    assert(out@ =~= start + escape_char(c));
}

fn push_quoted(out: &mut Vec<char>, s: &String)
    ensures
        final(out)@ == old(out)@ + quoted(s@),
{
    let cs = chars_of(s.as_str());
    let ghost start = out@;
    out.push('"');
    for i in 0..cs.len()
        invariant
            cs@ == s@,
            out@ == start + seq!['"'] + escaped(cs@.take(i as int)),
    {
        let ghost before = out@;
        push_escaped_char(out, cs[i]);
        assert(cs@.take(i + 1).drop_last() == cs@.take(i as int));
        assert(out@ =~= start + seq!['"'] + escaped(cs@.take(i + 1)));
    }
    assert(cs@.take(cs.len() as int) == cs@);
    out.push('"');
    assert(out@ =~= start + quoted(s@));
}

impl ValueToken {
    /// A copy of this token.
    pub fn copy(&self) -> (r: ValueToken)
        ensures
            r@ == self@,
    {
        match self {
            ValueToken::INT(s) => ValueToken::INT(s.clone()),
            ValueToken::REAL(s) => ValueToken::REAL(s.clone()),
            ValueToken::LIST => ValueToken::LIST,
        }
    }

    fn push_text(&self, out: &mut Vec<char>)
        ensures
            final(out)@ == old(out)@ + token_text(self@),
    {
        let ghost start = out@;
        match self {
            ValueToken::INT(s) => {
                push_str(out, "INT(");
                push_quoted(out, s);
                push_str(out, ")");
            },
            ValueToken::REAL(s) => {
                push_str(out, "REAL(");
                push_quoted(out, s);
                push_str(out, ")");
            },
            ValueToken::LIST => {
                push_str(out, "LIST");
            },
        }
        assert(out@ =~= start + token_text(self@));
    }

    fn name(&self) -> (r: String)
        ensures
            r@ == token_name(self@),
    {
        match self {
            ValueToken::INT(_) => owned("INT"),
            ValueToken::REAL(_) => owned("REAL"),
            ValueToken::LIST => owned("LIST"),
        }
    }
}

fn nat_string(n: usize) -> (r: String)
    ensures
        r@ == nat_text(n as nat),
{
    let mut v: Vec<char> = Vec::new();
    push_nat(&mut v, n as u64);
    assert(v@ =~= nat_text(n as nat));
    string_of(&v)
}

impl SymbolTableEntry {
    fn line(&self) -> (r: String)
        ensures
            r@ == entry_line(self@),
    {
        let mut out: Vec<char> = Vec::new();
        let lex = chars_of(self.lexeme.as_str());
        push_all(&mut out, &lex);
        push_str(&mut out, ",");
        push_nat(&mut out, self.line_number as u64);
        push_str(&mut out, ",");
        push_nat(&mut out, self.start_pos as u64);
        push_str(&mut out, ",");
        push_nat(&mut out, self.length as u64);
        push_str(&mut out, ",");
        self.value_type.push_text(&mut out);
        push_str(&mut out, ",");
        let val = chars_of(self.value.as_str());
        push_all(&mut out, &val);
        assert(out@ =~= entry_line(self@));
        string_of(&out)
    }

    fn record(&self) -> (r: Vec<String>)
        ensures
            string_views(r@) == entry_record(self@),
    {
        let mut r: Vec<String> = Vec::new();
        r.push(self.lexeme.clone());
        r.push(nat_string(self.line_number));
        r.push(nat_string(self.start_pos));
        r.push(nat_string(self.length));
        r.push(self.value_type.name());
        r.push(self.value.clone());
        assert(string_views(r@) =~= entry_record(self@));
        r
    }
}

// ---------------------------------------------------------------------------------
// The table
// ---------------------------------------------------------------------------------

impl SymbolTable {
    /// The entries, in the order they were added.
    pub closed spec fn entries(&self) -> Seq<EntryV> {
        entries_view(self.entries@)
    }

    /// The type of each variable assigned so far.
    pub closed spec fn types(&self) -> Seq<(Seq<char>, VariableType)> {
        types_view(self.variables@)
    }

    /// An empty table.
    pub fn new() -> (t: SymbolTable)
        ensures
            t.entries() == Seq::<EntryV>::empty(),
            t.types() == Seq::<(Seq<char>, VariableType)>::empty(),
    {
        let t = SymbolTable { entries: Vec::new(), variables: Vec::new() };
        assert(t.entries() =~= Seq::<EntryV>::empty());
        assert(t.types() =~= Seq::<(Seq<char>, VariableType)>::empty());
        t
    }

    /// Adds an entry at the end.
    pub fn insert(&mut self, lexeme: String, line_number: usize, start_pos: usize, length: usize,
        value_type: ValueToken, value: String)
        ensures
            final(self).entries() == old(self).entries().push(EntryV {
                lexeme: lexeme@,
                line_number,
                start_pos,
                length,
                value_type: value_type@,
                value: value@,
            }),
            final(self).types() == old(self).types(),
    {
        let entry = SymbolTableEntry { lexeme, line_number, start_pos, length, value_type, value };
        let ghost ev = entry@;
        self.entries.push(entry);
        assert(self.entries() =~= old(self).entries().push(ev));
    }

    fn find_type(&self, name: &String) -> (k: usize)
        ensures
            k as int == type_index_from(self.types(), name@, 0),
            k <= self.variables.len(),
    {
        let ghost vs = self.types();
        let mut k: usize = 0;
        while k < self.variables.len()
            invariant
                k <= self.variables.len(),
                vs == types_view(self.variables@),
                type_index_from(vs, name@, 0) == type_index_from(vs, name@, k as int),
            decreases self.variables.len() - k,
        {
            if self.variables[k].0 == *name {
                return k;
            }
            k = k + 1;
        }
        k
    }

    fn type_of_exec(&self, name: &String) -> (r: Option<VariableType>)
        ensures
            r == type_of(self.types(), name@),
    {
        let k = self.find_type(name);
        if k < self.variables.len() {
            Some(self.variables[k].1.copy())
        } else {
            None
        }
    }

    fn set_type_exec(&mut self, name: String, t: VariableType)
        ensures
            final(self).types() == set_type(old(self).types(), name@, t),
            final(self).entries() == old(self).entries(),
    {
        let k = self.find_type(&name);
        let ghost nv = name@;
        let ghost tv = t;
        if k < self.variables.len() {
            self.variables.set(k, (name, t));
            assert(self.types() =~= old(self).types().update(k as int, (nv, tv)));
        } else {
            self.variables.push((name, t));
            assert(self.types() =~= old(self).types().push((nv, tv)));
        }
    }

    /// What assigning `value` to `name` records (see `recorded`), with the types
    /// updated in place.
    fn record_value(&mut self, name: &String, value: &Expr) -> (r: Option<(ValueToken, String, usize)>)
        ensures
            final(self).entries() == old(self).entries(),
            match recorded(old(self).types(), name@, value@) {
                Some((tok, text, length, vs2)) => r matches Some((t, x, n)) && t@ == tok && x@ == text
                    && n as int == length && final(self).types() == vs2,
                None => r is None && final(self).types() == old(self).types(),
            },
    {
        proof { reveal_with_fuel(crate::parser::expr_view, 2); }
        match value {
            Expr::Int(n) => {
                let mut t: Vec<char> = Vec::new();
                push_int(&mut t, *n);
                let text = string_of(&t);
                let len = t.len();
                self.set_type_exec(name.clone(), VariableType::INT);
                Some((ValueToken::INT(text.clone()), text, len))
            },
            Expr::Float(x) => {
                let mut t: Vec<char> = Vec::new();
                x.push_text(&mut t);
                assert(t@ =~= real_text(x@));
                let text = string_of(&t);
                let len = t.len();
                self.set_type_exec(name.clone(), VariableType::REAL);
                Some((ValueToken::REAL(text.clone()), text, len))
            },
            Expr::List(els) => {
                let mut whole = true;
                let mut k: usize = 0;
                while k < els.len()
                    invariant
                        k <= els.len(),
                        whole == (forall|j: int| 0 <= j < k ==> (#[trigger] els@[j])@.frac.len() == 0),
                    decreases els.len() - k,
                {
                    if els[k].has_fraction() {
                        whole = false;
                    }
                    k = k + 1;
                }
                proof {
                    let rv = crate::parser::reals_view(els@);
                    if whole {
                        assert forall|j: int| 0 <= j < rv.len() implies (#[trigger] rv[j]).frac.len() == 0 by {
                            assert(rv[j] == els@[j]@);
                        }
                    } else {
                        let j = choose|j: int| 0 <= j < els.len() && !((#[trigger] els@[j])@.frac.len() == 0);
                        assert(rv[j] == els@[j]@);
                    }
                }
                let elt = if whole { VariableType::INT } else { VariableType::REAL };
                self.set_type_exec(name.clone(), VariableType::LIST(Box::new(elt)));
                Some((ValueToken::LIST, owned("Array"), 5))
            },
            Expr::ListAccess(l, index) => {
                let elt = match self.type_of_exec(l) {
                    Some(VariableType::LIST(t)) => *t,
                    _ => VariableType::INT,
                };
                let iv = match &**index {
                    Expr::Int(n) => {
                        let mut t: Vec<char> = Vec::new();
                        push_int(&mut t, *n);
                        t
                    },
                    _ => chars_of("unknown"),
                };
                let ivs = string_of(&iv);
                let tok = match elt {
                    VariableType::INT => ValueToken::INT(ivs),
                    VariableType::REAL => ValueToken::REAL(ivs),
                    VariableType::LIST(_) => ValueToken::LIST,
                };
                let mut text: Vec<char> = Vec::new();
                let lc = chars_of(l.as_str());
                push_all(&mut text, &lc);
                push_str(&mut text, "[");
                push_all(&mut text, &iv);
                push_str(&mut text, "]");
                let len = byte_count(l).saturating_add(iv.len()).saturating_add(2);
                Some((tok, string_of(&text), len))
            },
            _ => None,
        }
    }

    /// Adds an entry for each assignment among the outcomes (see `process_from`):
    /// outcome `i` is on line `i + 1`, and the start positions run from 0.
    pub fn process_parsed_expressions(&mut self, parsed_results: Vec<Result<Expr, ParseError>>)
        ensures
            (final(self).entries(), final(self).types())
                == process_from(results_view(parsed_results@), 0, old(self).entries(), old(self).types(), 0),
    {
        let ghost rs = results_view(parsed_results@);
        let ghost target = process_from(rs, 0, self.entries(), self.types(), 0);
        let mut current_pos: usize = 0;
        let mut i: usize = 0;
        while i < parsed_results.len()
            invariant
                i <= parsed_results.len(),
                rs == results_view(parsed_results@),
                target == process_from(rs, i as int, self.entries(), self.types(), current_pos as int),
            decreases parsed_results.len() - i,
        {
            assert(rs[i as int] == crate::parser::result_view(parsed_results@[i as int]));
            match &parsed_results[i] {
                Ok(Expr::Assignment(name, value)) => {
                    match self.record_value(name, value) {
                        Some((tok, text, length)) => {
                            self.insert(name.clone(), i + 1, current_pos, length, tok, text);
                            current_pos = current_pos.saturating_add(length).saturating_add(1);
                        },
                        None => {},
                    }
                },
                _ => {},
            }
            i = i + 1;
        }
    }

    /// Each entry as one line (see `entry_line`).
    pub fn output(&self) -> (r: Vec<String>)
        ensures
            string_views(r@) == self.entries().map_values(|e: EntryV| entry_line(e)),
    {
        let mut out: Vec<String> = Vec::new();
        for i in 0..self.entries.len()
            invariant
                string_views(out@) == self.entries().take(i as int).map_values(|e: EntryV| entry_line(e)),
        {
            let line = self.entries[i].line();
            let ghost before = string_views(out@);
            out.push(line);
            assert(self.entries()[i as int] == self.entries@[i as int]@);
            assert(string_views(out@) == before.push(entry_line(self.entries()[i as int])));
            assert(self.entries().take(i + 1) == self.entries().take(i as int).push(self.entries()[i as int]));
            assert(string_views(out@) =~= self.entries().take(i + 1).map_values(|e: EntryV| entry_line(e)));
        }
        assert(self.entries().take(self.entries.len() as int) == self.entries());
        out
    }

    /// The table as records: the header, then one record per entry (see
    /// `entry_record`).
    pub fn csv_records(&self) -> (r: Vec<Vec<String>>)
        ensures
            r@.len() == self.entries().len() + 1,
            string_views(r@[0]@) == header_record(),
            forall|i: int| 0 <= i < self.entries().len() ==> string_views(#[trigger] r@[i + 1]@) == entry_record(self.entries()[i]),
    {
        let mut out: Vec<Vec<String>> = Vec::new();
        let mut header: Vec<String> = Vec::new();
        header.push(owned("Lexeme"));
        header.push(owned("Line Number"));
        header.push(owned("Start Position"));
        header.push(owned("Length"));
        header.push(owned("Type"));
        header.push(owned("Value"));
        assert(string_views(header@) =~= header_record());
        out.push(header);
        for i in 0..self.entries.len()
            invariant
                out@.len() == i + 1,
                string_views(out@[0]@) == header_record(),
                forall|j: int| 0 <= j < i ==> string_views(#[trigger] out@[j + 1]@) == entry_record(self.entries()[j]),
        {
            let rec = self.entries[i].record();
            out.push(rec);
            assert(string_views(out@[i + 1]@) == entry_record(self.entries()[i as int]));
        }
        out
    }
}

// ---------------------------------------------------------------------------------
// Laws
// ---------------------------------------------------------------------------------

/// Recording assignments only adds entries at the end: the earlier entries stay as
/// they were; the first new entry starts at the position given and each later one
/// where the one before ended, plus one; line numbers grow from entry to entry.
pub proof fn law_entries_run_on(results: Seq<Result<ExprV, ParseErrorV>>, i: int, entries: Seq<EntryV>,
    vs: Seq<(Seq<char>, VariableType)>, pos: int)
    requires
        0 <= i,
        0 <= pos <= usize::MAX,
        results.len() <= usize::MAX,
    ensures
        ({
            let out = process_from(results, i, entries, vs, pos).0;
            &&& out.len() >= entries.len()
            &&& out.subrange(0, entries.len() as int) == entries
            &&& out.len() > entries.len() ==> out[entries.len() as int].start_pos == pos
                && out[entries.len() as int].line_number > i
            &&& forall|k: int| entries.len() < k < out.len() ==>
                (#[trigger] out[k]).start_pos == sat(out[k - 1].start_pos + out[k - 1].length + 1)
                && out[k - 1].line_number < out[k].line_number
        }),
    decreases results.len() - i,
{
    if i < results.len() {
        match results[i] {
            Ok(ExprV::Assignment(name, value)) => match recorded(vs, name, *value) {
                Some((tok, text, length, vs2)) => {
                    let e = EntryV {
                        lexeme: name,
                        line_number: (i + 1) as usize,
                        start_pos: pos as usize,
                        length: sat(length) as usize,
                        value_type: tok,
                        value: text,
                    };
                    let p2 = sat(pos + sat(length) + 1);
                    law_entries_run_on(results, i + 1, entries.push(e), vs2, p2);
                    let out = process_from(results, i, entries, vs, pos).0;
                    assert(out == process_from(results, i + 1, entries.push(e), vs2, p2).0);
                    assert(out.subrange(0, entries.len() as int + 1) == entries.push(e));
                    assert(out.subrange(0, entries.len() as int + 1)[entries.len() as int] == out[entries.len() as int]);
                    assert(out[entries.len() as int] == e);
                    assert(out.subrange(0, entries.len() as int) =~= entries) by {
                        assert forall|k: int| 0 <= k < entries.len() implies out[k] == entries[k] by {
                            assert(out.subrange(0, entries.len() as int + 1)[k] == out[k]);
                        }
                    }
                    assert forall|k: int| entries.len() < k < out.len() implies
                        (#[trigger] out[k]).start_pos == sat(out[k - 1].start_pos + out[k - 1].length + 1)
                        && out[k - 1].line_number < out[k].line_number by {
                        if k == entries.len() + 1 {
                            assert(out[k - 1] == e);
                        }
                    }
                },
                None => law_entries_run_on(results, i + 1, entries, vs, pos),
            },
            _ => law_entries_run_on(results, i + 1, entries, vs, pos),
        }
    } else {
        assert(process_from(results, i, entries, vs, pos).0.subrange(0, entries.len() as int) =~= entries);
    }
}

proof fn lemma_index_bounds(vs: Seq<(Seq<char>, VariableType)>, name: Seq<char>, i: int)
    requires
        0 <= i <= vs.len(),
    ensures
        i <= type_index_from(vs, name, i) <= vs.len(),
        type_index_from(vs, name, i) < vs.len() ==> vs[type_index_from(vs, name, i)].0 == name,
        forall|j: int| i <= j < type_index_from(vs, name, i) ==> (#[trigger] vs[j]).0 != name,
    decreases vs.len() - i,
{
    if i < vs.len() && vs[i].0 != name {
        lemma_index_bounds(vs, name, i + 1);
    }
}

proof fn lemma_index_is(vs: Seq<(Seq<char>, VariableType)>, name: Seq<char>, i: int, r: int)
    requires
        0 <= i <= r < vs.len(),
        vs[r].0 == name,
        forall|j: int| i <= j < r ==> (#[trigger] vs[j]).0 != name,
    ensures
        type_index_from(vs, name, i) == r,
    decreases r - i,
{
    if i < r {
        lemma_index_is(vs, name, i + 1, r);
    }
}

/// Setting the type of `name` makes it the type recorded for `name`.
pub proof fn law_type_after_set(vs: Seq<(Seq<char>, VariableType)>, name: Seq<char>, t: VariableType)
    ensures
        type_of(set_type(vs, name, t), name) == Some(t),
{
    lemma_index_bounds(vs, name, 0);
    let k = type_index_from(vs, name, 0);
    let vs2 = set_type(vs, name, t);
    if k < vs.len() {
        assert forall|j: int| 0 <= j < k implies (#[trigger] vs2[j]).0 != name by {
            assert(vs2[j] == vs[j]);
        }
        lemma_index_is(vs2, name, 0, k);
    } else {
        assert forall|j: int| 0 <= j < vs.len() implies (#[trigger] vs2[j]).0 != name by {
            assert(vs2[j] == vs[j]);
        }
        lemma_index_is(vs2, name, 0, vs.len() as int);
    }
}

/// A list with an element that has a fractional part holds reals: assigning it to
/// `name` records the type list of `REAL`, and reading an element of it, `name[index]`,
/// into another variable records a `REAL` token for that variable.
pub proof fn law_fractional_list_is_real(vs: Seq<(Seq<char>, VariableType)>, name: Seq<char>,
    els: Seq<RealV>, k: int, w: Seq<char>, index: ExprV)
    requires
        0 <= k < els.len(),
        els[k].frac.len() > 0,
    ensures
        ({
            let r = recorded(vs, name, ExprV::List(els));
            &&& r is Some
            &&& r.unwrap().0 == ValueTokenV::LIST
            &&& type_of(r.unwrap().3, name) == Some(VariableType::LIST(Box::new(VariableType::REAL)))
            &&& recorded(r.unwrap().3, w, ExprV::ListAccess(name, Box::new(index))) is Some
            &&& recorded(r.unwrap().3, w, ExprV::ListAccess(name, Box::new(index))).unwrap().0 is REAL
        }),
{
    assert(!all_whole(els)) by {
        assert(els[k].frac.len() != 0);
    }
    law_type_after_set(vs, name, VariableType::LIST(Box::new(VariableType::REAL)));
}

/// A list whose elements are all whole numbers holds integers: assigning it to `name`
/// records the type list of `INT`, and reading an element of it, `name[index]`, into
/// another variable records an `INT` token for that variable.
pub proof fn law_whole_list_is_int(vs: Seq<(Seq<char>, VariableType)>, name: Seq<char>,
    els: Seq<RealV>, w: Seq<char>, index: ExprV)
    requires
        forall|k: int| 0 <= k < els.len() ==> (#[trigger] els[k]).frac.len() == 0,
    ensures
        ({
            let r = recorded(vs, name, ExprV::List(els));
            &&& r is Some
            &&& r.unwrap().0 == ValueTokenV::LIST
            &&& type_of(r.unwrap().3, name) == Some(VariableType::LIST(Box::new(VariableType::INT)))
            &&& recorded(r.unwrap().3, w, ExprV::ListAccess(name, Box::new(index))) is Some
            &&& recorded(r.unwrap().3, w, ExprV::ListAccess(name, Box::new(index))).unwrap().0 is INT
        }),
{
    law_type_after_set(vs, name, VariableType::LIST(Box::new(VariableType::INT)));
}

/// Reading an element of a list that holds a number with a fractional part, on the
/// line right after the list was assigned, enters the reading variable with a `REAL`
/// token.
pub proof fn law_fractional_list_element_entry(results: Seq<Result<ExprV, ParseErrorV>>, i: int,
    entries: Seq<EntryV>, vs: Seq<(Seq<char>, VariableType)>, pos: int, name: Seq<char>,
    els: Seq<RealV>, k: int, w: Seq<char>, index: ExprV)
    requires
        0 <= i,
        i + 1 < results.len() <= usize::MAX,
        0 <= pos <= usize::MAX,
        results[i] == Ok::<ExprV, ParseErrorV>(ExprV::Assignment(name, Box::new(ExprV::List(els)))),
        results[i + 1] == Ok::<ExprV, ParseErrorV>(
            ExprV::Assignment(w, Box::new(ExprV::ListAccess(name, Box::new(index))))),
        0 <= k < els.len(),
        els[k].frac.len() > 0,
    ensures
        ({
            let out = process_from(results, i, entries, vs, pos).0;
            &&& out.len() >= entries.len() + 2
            &&& out[entries.len() as int + 1].lexeme == w
            &&& out[entries.len() as int + 1].value_type is REAL
        }),
{
    law_fractional_list_is_real(vs, name, els, k, w, index);
    let r1 = recorded(vs, name, ExprV::List(els)).unwrap();
    let e1 = EntryV {
        lexeme: name,
        line_number: (i + 1) as usize,
        start_pos: pos as usize,
        length: sat(r1.2) as usize,
        value_type: r1.0,
        value: r1.1,
    };
    let p1 = sat(pos + sat(r1.2) + 1);
    let r2 = recorded(r1.3, w, ExprV::ListAccess(name, Box::new(index))).unwrap();
    let e2 = EntryV {
        lexeme: w,
        line_number: (i + 2) as usize,
        start_pos: p1 as usize,
        length: sat(r2.2) as usize,
        value_type: r2.0,
        value: r2.1,
    };
    let p2 = sat(p1 + sat(r2.2) + 1);
    let entries2 = entries.push(e1).push(e2);
    assert(process_from(results, i, entries, vs, pos) == process_from(results, i + 1, entries.push(e1), r1.3, p1));
    assert(process_from(results, i + 1, entries.push(e1), r1.3, p1) == process_from(results, i + 2, entries2, r2.3, p2));
    law_entries_run_on(results, i + 2, entries2, r2.3, p2);
    let out = process_from(results, i, entries, vs, pos).0;
    assert(out.subrange(0, entries2.len() as int)[entries.len() as int + 1] == out[entries.len() as int + 1]);
    assert(entries2[entries.len() as int + 1] == e2);
}

} // verus!
