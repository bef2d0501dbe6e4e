//! The parser: turns the tokens of each line into an expression tree, keeping a table of
//! the variables assigned so far, and renders trees and errors as text.
use vstd::prelude::*;
use crate::scanner::Token;
use crate::number::{Real, RealV, parse_real, digits_value, real_is_negative, real_is_zero, int_real, clamp_i64, real_text_one_place, int_magnitude};
use crate::text::{int_text, nat_text, owned, byte_len, byte_count, push_all, push_str, push_int, push_nat, chars_of, string_of, string_views};

verus! {

/// An expression tree.
#[derive(Debug)]
pub enum Expr {
    Int(i64),
    Float(Real),
    Variable(String),
    BinaryOp(Box<Expr>, String, Box<Expr>),
    Assignment(String, Box<Expr>),
    Boolean(Box<Expr>, String, Box<Expr>),
    /// A list of numbers (integers are held as their decimal value).
    List(Vec<Real>),
    ListAccess(String, Box<Expr>),
    UnaryOp(String, Box<Expr>),
}

/// The abstract value of an `Expr`: strings as their characters, numbers as their values.
pub enum ExprV {
    Int(i64),
    Float(RealV),
    Variable(Seq<char>),
    BinaryOp(Box<ExprV>, Seq<char>, Box<ExprV>),
    Assignment(Seq<char>, Box<ExprV>),
    Boolean(Box<ExprV>, Seq<char>, Box<ExprV>),
    List(Seq<RealV>),
    ListAccess(Seq<char>, Box<ExprV>),
    UnaryOp(Seq<char>, Box<ExprV>),
}

/// The views of a sequence of numbers.
pub open spec fn reals_view(v: Seq<Real>) -> Seq<RealV> {
    v.map_values(|r: Real| r@)
}

/// The abstract value of an expression.
pub open spec fn expr_view(e: Expr) -> ExprV
    decreases e,
{
    match e {
        Expr::Int(n) => ExprV::Int(n),
        Expr::Float(r) => ExprV::Float(r@),
        Expr::Variable(s) => ExprV::Variable(s@),
        Expr::BinaryOp(l, op, r) => ExprV::BinaryOp(Box::new(expr_view(*l)), op@, Box::new(expr_view(*r))),
        Expr::Assignment(s, v) => ExprV::Assignment(s@, Box::new(expr_view(*v))),
        Expr::Boolean(l, op, r) => ExprV::Boolean(Box::new(expr_view(*l)), op@, Box::new(expr_view(*r))),
        Expr::List(v) => ExprV::List(reals_view(v@)),
        Expr::ListAccess(s, i) => ExprV::ListAccess(s@, Box::new(expr_view(*i))),
        Expr::UnaryOp(op, v) => ExprV::UnaryOp(op@, Box::new(expr_view(*v))),
    }
}

impl View for Expr {
    type V = ExprV;

    open spec fn view(&self) -> ExprV {
        expr_view(*self)
    }
}

/// A place in the source: line and column, both counted from 1.
#[derive(Debug, Clone, Copy, PartialEq, Eq, Structural)]
pub struct Position {
    pub line: usize,
    pub column: usize,
}

/// The outcome of parsing one line, as text.
#[derive(Debug, Clone)]
pub enum ParseResult {
    Success(String),
    Error(ParseError),
}

/// Why a line could not be parsed.
#[derive(Debug, Clone)]
pub enum ParseError {
    SyntaxError(Position),
    UndefinedVariable(String, Position),
    InvalidAtom(Position),
    IndexOutOfRange(Position, usize),
    DivisionByZero(Position),
    MissingIndex(Position),
    TokenizeError,
}

/// The abstract value of a `ParseError`.
pub enum ParseErrorV {
    SyntaxError(Position),
    UndefinedVariable(Seq<char>, Position),
    InvalidAtom(Position),
    IndexOutOfRange(Position, usize),
    DivisionByZero(Position),
    MissingIndex(Position),
    TokenizeError,
}

impl View for ParseError {
    type V = ParseErrorV;

    open spec fn view(&self) -> ParseErrorV {
        match self {
            ParseError::SyntaxError(p) => ParseErrorV::SyntaxError(*p),
            ParseError::UndefinedVariable(s, p) => ParseErrorV::UndefinedVariable(s@, *p),
            ParseError::InvalidAtom(p) => ParseErrorV::InvalidAtom(*p),
            ParseError::IndexOutOfRange(p, i) => ParseErrorV::IndexOutOfRange(*p, *i),
            ParseError::DivisionByZero(p) => ParseErrorV::DivisionByZero(*p),
            ParseError::MissingIndex(p) => ParseErrorV::MissingIndex(*p),
            ParseError::TokenizeError => ParseErrorV::TokenizeError,
        }
    }
}

/// The abstract value of a parse outcome.
pub open spec fn result_view(r: Result<Expr, ParseError>) -> Result<ExprV, ParseErrorV> {
    match r {
        Ok(e) => Ok(e@),
        Err(err) => Err(err@),
    }
}

/// The fixed input of one line's parse: its tokens, the column of each token, and
/// the line number.
pub struct PCtx {
    pub toks: Seq<(Seq<char>, Token)>,
    pub positions: Seq<usize>,
    pub line: usize,
}

/// The changing state of a parse: the index of the next token, the running column,
/// and the variables assigned so far (name and value, in order of first assignment).
pub struct PState {
    pub pos: int,
    pub col: int,
    pub vars: Seq<(Seq<char>, ExprV)>,
}

/// A parse step's outcome and the state after it.
pub type PRes = (Result<ExprV, ParseErrorV>, PState);

/// `x`, cut down to the largest `usize`.
pub open spec fn sat(x: int) -> int {
    if x > usize::MAX { usize::MAX as int } else { x }
}

/// The number of columns a token takes: its lexeme's length in bytes for names and
/// numbers, the operator's length otherwise.
pub open spec fn token_length(p: (Seq<char>, Token)) -> nat {
    match p.1 {
        Token::VAR | Token::INT | Token::REAL => (byte_len(p.0) as usize) as nat,
        Token::EQ | Token::NE | Token::LE | Token::GE | Token::INTDIV => 2,
        Token::LIST => 4,
        _ => 1,
    }
}

/// The kind of the token at index `i`, if there is one.
pub open spec fn kind_at(c: PCtx, i: int) -> Option<Token> {
    if 0 <= i < c.toks.len() { Some(c.toks[i].1) } else { None }
}

/// The kind of the next token.
pub open spec fn peek(c: PCtx, st: PState) -> Option<Token> {
    kind_at(c, st.pos)
}

/// The state after taking the next token (unchanged when there is none).
pub open spec fn advance(c: PCtx, st: PState) -> PState {
    if 0 <= st.pos < c.toks.len() {
        let col1 = sat(st.col + token_length(c.toks[st.pos]));
        let col2 = if st.pos + 1 < c.toks.len() { sat(col1 + 1) } else { col1 };
        PState { pos: st.pos + 1, col: col2, vars: st.vars }
    } else {
        st
    }
}

/// The position reported by an error: the column of the last token taken (of the
/// first token when none was taken; the running column when no columns are known).
pub open spec fn here(c: PCtx, st: PState) -> Position {
    Position {
        line: c.line,
        column: if st.pos > 0 && st.pos <= c.positions.len() {
            c.positions[st.pos - 1]
        } else if c.positions.len() > 0 {
            c.positions[0]
        } else {
            st.col as usize
        },
    }
}

pub open spec fn syntax_error(c: PCtx, st: PState) -> PRes {
    (Err(ParseErrorV::SyntaxError(here(c, st))), st)
}

/// `st1` is no earlier than `st0` and within the tokens.
pub open spec fn moved(c: PCtx, st0: PState, st1: PState) -> bool {
    st0.pos <= st1.pos <= c.toks.len()
}

/// The index of the first variable called `name` at or after `i`, or `vs.len()`.
pub open spec fn var_index_from(vs: Seq<(Seq<char>, ExprV)>, name: Seq<char>, i: int) -> int
    decreases vs.len() - i,
{
    if i < 0 || i >= vs.len() {
        vs.len() as int
    } else if vs[i].0 == name {
        i
    } else {
        var_index_from(vs, name, i + 1)
    }
}

/// The index of the variable called `name`, or `vs.len()` when there is none.
pub open spec fn var_index(vs: Seq<(Seq<char>, ExprV)>, name: Seq<char>) -> int {
    var_index_from(vs, name, 0)
}

/// The value of the variable called `name`.
pub open spec fn lookup(vs: Seq<(Seq<char>, ExprV)>, name: Seq<char>) -> Option<ExprV> {
    let i = var_index(vs, name);
    if 0 <= i < vs.len() { Some(vs[i].1) } else { None }
}

/// The variables with `name` set to `v` (replacing its value, or added at the end).
pub open spec fn assign(vs: Seq<(Seq<char>, ExprV)>, name: Seq<char>, v: ExprV) -> Seq<(Seq<char>, ExprV)> {
    let i = var_index(vs, name);
    if 0 <= i < vs.len() { vs.update(i, (name, v)) } else { vs.push((name, v)) }
}

/// A number literal: an integer or a decimal.
pub enum LitV {
    I(int),
    R(RealV),
}

/// The value of the number token `p`.
pub open spec fn lit_of(p: (Seq<char>, Token)) -> LitV {
    let v = parse_real(p.0).unwrap();
    if p.1 == Token::INT {
        LitV::I(if v.negative { -digits_value(v.whole) } else { digits_value(v.whole) as int })
    } else {
        LitV::R(v)
    }
}

/// The literal's magnitude.
pub open spec fn lit_abs(l: LitV) -> LitV {
    match l {
        LitV::I(v) => LitV::I(if v < 0 { -v } else { v }),
        LitV::R(r) => LitV::R(RealV { negative: false, ..r }),
    }
}

/// The literal is below zero.
pub open spec fn lit_negative(l: LitV) -> bool {
    match l {
        LitV::I(v) => v < 0,
        LitV::R(r) => real_is_negative(r),
    }
}

/// The expression of a literal: a negative one becomes `-` applied to its magnitude.
pub open spec fn lit_expr(l: LitV) -> ExprV {
    match l {
        LitV::I(v) => if v < 0 {
            ExprV::UnaryOp("-"@, Box::new(ExprV::Int(clamp_i64((-v) as nat))))
        } else {
            ExprV::Int(clamp_i64(v as nat))
        },
        LitV::R(r) => if real_is_negative(r) {
            ExprV::UnaryOp("-"@, Box::new(ExprV::Float(RealV { negative: false, ..r })))
        } else {
            ExprV::Float(r)
        },
    }
}

pub open spec fn is_number(t: Token) -> bool {
    t == Token::INT || t == Token::REAL
}

pub open spec fn is_comparison(t: Token) -> bool {
    t == Token::EQ || t == Token::NE || t == Token::GT || t == Token::LT || t == Token::GE || t == Token::LE
}

/// The text of a comparison operator.
pub open spec fn comparison_text(t: Token) -> Seq<char> {
    match t {
        Token::EQ => "=="@,
        Token::NE => "!="@,
        Token::GT => ">"@,
        Token::LT => "<"@,
        Token::GE => ">="@,
        _ => "<="@,
    }
}

/// The tokens that may follow a number.
pub open spec fn may_follow_number(t: Token) -> bool {
    t == Token::ADD || t == Token::SUB || t == Token::MUL || t == Token::DIV || t == Token::INTDIV
        || t == Token::POW || is_comparison(t) || t == Token::LPAREN || t == Token::RPAREN
        || t == Token::RBRACKET
}

pub open spec fn is_list(e: ExprV) -> bool {
    e matches ExprV::List(_)
}

/// The next token is `t`: take it; otherwise a syntax error.
pub open spec fn expect(c: PCtx, st: PState, t: Token) -> (bool, PState) {
    if peek(c, st) == Some(t) { (true, advance(c, st)) } else { (false, st) }
}

/// A line: an assignment `name = expression`, or a comparison chain.
pub open spec fn p_calculation(c: PCtx, st: PState) -> PRes
    decreases c.toks.len() - st.pos, 10nat,
{
    if peek(c, st) == Some(Token::VAR) && kind_at(c, st.pos + 1) == Some(Token::ASSIGN) {
        p_assignment(c, st)
    } else {
        let (r1, st1) = p_boolean(c, st);
        if !moved(c, st, st1) {
            syntax_error(c, st1)
        } else {
            match r1 {
                Err(e) => (Err(e), st1),
                Ok(left) => {
                    if st1.pos < c.toks.len() && is_comparison(c.toks[st1.pos].1) {
                        let op = comparison_text(c.toks[st1.pos].1);
                        let (r2, st2) = p_expression(c, advance(c, st1));
                        match r2 {
                            Err(e) => (Err(e), st2),
                            Ok(right) => (Ok(ExprV::Boolean(Box::new(left), op, Box::new(right))), st2),
                        }
                    } else {
                        (Ok(left), st1)
                    }
                },
            }
        }
    }
}

/// `name = expression`; the variable takes the value (an empty list is refused).
pub open spec fn p_assignment(c: PCtx, st: PState) -> PRes
    decreases c.toks.len() - st.pos, 9nat,
{
    if peek(c, st) != Some(Token::VAR) {
        syntax_error(c, advance(c, st))
    } else {
        let name = c.toks[st.pos].0;
        let st1 = advance(c, st);
        let (ok, st2) = expect(c, st1, Token::ASSIGN);
        if !ok {
            syntax_error(c, st2)
        } else {
            let (r, st3) = p_expression(c, st2);
            match r {
                Err(e) => (Err(e), st3),
                Ok(v) => if v matches ExprV::List(l) && l.len() == 0 {
                    syntax_error(c, st3)
                } else {
                    (Ok(ExprV::Assignment(name, Box::new(v))), PState { vars: assign(st3.vars, name, v), ..st3 })
                },
            }
        }
    }
}

/// An expression, possibly after a leading `-`, which then applies to the variable on
/// the left of a comparison, or else to the whole expression.
pub open spec fn p_boolean(c: PCtx, st: PState) -> PRes
    decreases c.toks.len() - st.pos, 8nat,
{
    let negative = peek(c, st) == Some(Token::SUB);
    let st1 = if negative { advance(c, st) } else { st };
    let (r, st2) = p_expression(c, st1);
    match r {
        Err(e) => (Err(e), st2),
        Ok(left) => if !negative {
            (Ok(left), st2)
        } else {
            (Ok(negate(left)), st2)
        },
    }
}

/// What a leading `-` makes of the expression after it.
pub open spec fn negate(e: ExprV) -> ExprV {
    match e {
        ExprV::Variable(name) => ExprV::UnaryOp("-"@, Box::new(ExprV::Variable(name))),
        ExprV::Boolean(l, op, r) => match *l {
            ExprV::Variable(name) => ExprV::Boolean(
                Box::new(ExprV::UnaryOp("-"@, Box::new(ExprV::Variable(name)))), op, r),
            _ => ExprV::Boolean(l, op, r),
        },
        _ => ExprV::UnaryOp("-"@, Box::new(e)),
    }
}

/// Terms joined left to right by `+`, `-` and comparisons.
pub open spec fn p_expression(c: PCtx, st: PState) -> PRes
    decreases c.toks.len() - st.pos, 7nat,
{
    let (r, st1) = p_term(c, st);
    if !moved(c, st, st1) {
        syntax_error(c, st1)
    } else {
        match r {
            Err(e) => (Err(e), st1),
            Ok(left) => p_expression_rest(c, st1, left),
        }
    }
}

/// The rest of an expression whose terms so far make `acc`.
pub open spec fn p_expression_rest(c: PCtx, st: PState, acc: ExprV) -> PRes
    decreases c.toks.len() - st.pos, 6nat,
{
    match peek(c, st) {
        Some(t) => if t == Token::ADD || t == Token::SUB || is_comparison(t) {
            let st1 = advance(c, st);
            let (r, st2) = p_term(c, st1);
            if !moved(c, st1, st2) {
                syntax_error(c, st2)
            } else {
                match r {
                    Err(e) => (Err(e), st2),
                    Ok(right) => if t == Token::ADD || t == Token::SUB {
                        if is_list(acc) || is_list(right) {
                            syntax_error(c, st2)
                        } else {
                            let op = if t == Token::ADD { "+"@ } else { "-"@ };
                            p_expression_rest(c, st2, ExprV::BinaryOp(Box::new(acc), op, Box::new(right)))
                        }
                    } else {
                        p_expression_rest(c, st2, ExprV::Boolean(Box::new(acc), comparison_text(t), Box::new(right)))
                    },
                }
            }
        } else {
            (Ok(acc), st)
        },
        None => (Ok(acc), st),
    }
}

/// The operator text of `+` or `-`.
pub open spec fn additive_text(t: Token) -> Seq<char> {
    if t == Token::ADD { "+"@ } else { "-"@ }
}

/// Addition and subtraction associate to the left: three terms joined by two of
/// `+` / `-`, `t1 o1 t2 o2 t3`, parse as `(t1 o1 t2) o2 t3`.
pub proof fn law_additive_left_associative(c: PCtx, st: PState, o1: Token, o2: Token,
    e1: ExprV, e2: ExprV, e3: ExprV, s1: PState, s2: PState, s3: PState)
    requires
        o1 == Token::ADD || o1 == Token::SUB,
        o2 == Token::ADD || o2 == Token::SUB,
        p_term(c, st) == (Ok::<ExprV, ParseErrorV>(e1), s1),
        moved(c, st, s1),
        peek(c, s1) == Some(o1),
        p_term(c, advance(c, s1)) == (Ok::<ExprV, ParseErrorV>(e2), s2),
        moved(c, advance(c, s1), s2),
        peek(c, s2) == Some(o2),
        p_term(c, advance(c, s2)) == (Ok::<ExprV, ParseErrorV>(e3), s3),
        moved(c, advance(c, s2), s3),
        !is_list(e1),
        !is_list(e2),
        !is_list(e3),
        peek(c, s3) matches Some(t) ==> !(t == Token::ADD || t == Token::SUB || is_comparison(t)),
    ensures
        p_expression(c, st) == (Ok::<ExprV, ParseErrorV>(ExprV::BinaryOp(
            Box::new(ExprV::BinaryOp(Box::new(e1), additive_text(o1), Box::new(e2))),
            additive_text(o2),
            Box::new(e3),
        )), s3),
{
    let a1 = ExprV::BinaryOp(Box::new(e1), additive_text(o1), Box::new(e2));
    let a2 = ExprV::BinaryOp(Box::new(a1), additive_text(o2), Box::new(e3));
    assert(p_expression_rest(c, s3, a2) == (Ok::<ExprV, ParseErrorV>(a2), s3));
    assert(p_expression_rest(c, s2, a1) == p_expression_rest(c, s3, a2));
    assert(p_expression_rest(c, s1, e1) == p_expression_rest(c, s2, a1));
    assert(p_expression(c, st) == p_expression_rest(c, s1, e1));
}

/// Factors joined left to right by `*` and `/`.
pub open spec fn p_term(c: PCtx, st: PState) -> PRes
    decreases c.toks.len() - st.pos, 5nat,
{
    let (r, st1) = p_factor(c, st);
    if !moved(c, st, st1) {
        syntax_error(c, st1)
    } else {
        match r {
            Err(e) => (Err(e), st1),
            Ok(left) => p_term_rest(c, st1, left),
        }
    }
}

/// The right operand of `/` is the literal zero.
pub open spec fn is_zero_literal(e: ExprV) -> bool {
    match e {
        ExprV::Int(n) => n == 0,
        ExprV::Float(r) => real_is_zero(r),
        _ => false,
    }
}

/// The rest of a term whose factors so far make `acc`.
pub open spec fn p_term_rest(c: PCtx, st: PState, acc: ExprV) -> PRes
    decreases c.toks.len() - st.pos, 4nat,
{
    match peek(c, st) {
        Some(t) => if t == Token::MUL || t == Token::DIV {
            let st1 = advance(c, st);
            if peek(c, st1) == Some(Token::LIST) {
                syntax_error(c, st1)
            } else {
                let (r, st2) = p_factor(c, st1);
                if !moved(c, st1, st2) {
                    syntax_error(c, st2)
                } else {
                    match r {
                        Err(e) => (Err(e), st2),
                        Ok(right) => if is_list(acc) || is_list(right) {
                            syntax_error(c, st2)
                        } else if t == Token::DIV && is_zero_literal(right) {
                            (Err(ParseErrorV::DivisionByZero(here(c, st2))), st2)
                        } else {
                            let op = if t == Token::MUL { "*"@ } else { "/"@ };
                            p_term_rest(c, st2, ExprV::BinaryOp(Box::new(acc), op, Box::new(right)))
                        },
                    }
                }
            }
        } else {
            (Ok(acc), st)
        },
        None => (Ok(acc), st),
    }
}

/// The operator text of `*` or `/`.
pub open spec fn multiplicative_text(t: Token) -> Seq<char> {
    if t == Token::MUL { "*"@ } else { "/"@ }
}

/// Multiplication and division associate to the left: three factors joined by two of
/// `*` / `/` (no division by a literal zero), `f1 o1 f2 o2 f3`, parse as
/// `(f1 o1 f2) o2 f3`.
pub proof fn law_multiplicative_left_associative(c: PCtx, st: PState, o1: Token, o2: Token,
    e1: ExprV, e2: ExprV, e3: ExprV, s1: PState, s2: PState, s3: PState)
    requires
        o1 == Token::MUL || o1 == Token::DIV,
        o2 == Token::MUL || o2 == Token::DIV,
        p_factor(c, st) == (Ok::<ExprV, ParseErrorV>(e1), s1),
        moved(c, st, s1),
        peek(c, s1) == Some(o1),
        peek(c, advance(c, s1)) != Some(Token::LIST),
        p_factor(c, advance(c, s1)) == (Ok::<ExprV, ParseErrorV>(e2), s2),
        moved(c, advance(c, s1), s2),
        peek(c, s2) == Some(o2),
        peek(c, advance(c, s2)) != Some(Token::LIST),
        p_factor(c, advance(c, s2)) == (Ok::<ExprV, ParseErrorV>(e3), s3),
        moved(c, advance(c, s2), s3),
        !is_list(e1),
        !is_list(e2),
        !is_list(e3),
        o1 == Token::DIV ==> !is_zero_literal(e2),
        o2 == Token::DIV ==> !is_zero_literal(e3),
        peek(c, s3) != Some(Token::MUL) && peek(c, s3) != Some(Token::DIV),
    ensures
        p_term(c, st) == (Ok::<ExprV, ParseErrorV>(ExprV::BinaryOp(
            Box::new(ExprV::BinaryOp(Box::new(e1), multiplicative_text(o1), Box::new(e2))),
            multiplicative_text(o2),
            Box::new(e3),
        )), s3),
{
    let a1 = ExprV::BinaryOp(Box::new(e1), multiplicative_text(o1), Box::new(e2));
    let a2 = ExprV::BinaryOp(Box::new(a1), multiplicative_text(o2), Box::new(e3));
    assert(p_term_rest(c, s3, a2) == (Ok::<ExprV, ParseErrorV>(a2), s3));
    assert(p_term_rest(c, s2, a1) == p_term_rest(c, s3, a2));
    assert(p_term_rest(c, s1, e1) == p_term_rest(c, s2, a1));
    assert(p_term(c, st) == p_term_rest(c, s1, e1));
}

/// Powers associate to the right: three atoms joined by two `^`, `a1 ^ a2 ^ a3`,
/// parse as `a1 ^ (a2 ^ a3)`.
pub proof fn law_power_right_associative(c: PCtx, st: PState,
    e1: ExprV, e2: ExprV, e3: ExprV, s1: PState, s2: PState, s3: PState)
    requires
        p_atom(c, st) == (Ok::<ExprV, ParseErrorV>(e1), s1),
        moved(c, st, s1),
        peek(c, s1) == Some(Token::POW),
        p_atom(c, advance(c, s1)) == (Ok::<ExprV, ParseErrorV>(e2), s2),
        moved(c, advance(c, s1), s2),
        peek(c, s2) == Some(Token::POW),
        p_atom(c, advance(c, s2)) == (Ok::<ExprV, ParseErrorV>(e3), s3),
        moved(c, advance(c, s2), s3),
        peek(c, s3) != Some(Token::POW),
    ensures
        p_factor(c, st) == (Ok::<ExprV, ParseErrorV>(ExprV::BinaryOp(
            Box::new(e1),
            "^"@,
            Box::new(ExprV::BinaryOp(Box::new(e2), "^"@, Box::new(e3))),
        )), s3),
{
    let b = ExprV::BinaryOp(Box::new(e2), "^"@, Box::new(e3));
    let top = ExprV::BinaryOp(Box::new(e1), "^"@, Box::new(b));
    assert(p_factor_rest(c, s3, e3) == (Ok::<ExprV, ParseErrorV>(e3), s3));
    assert(p_factor(c, advance(c, s2)) == (Ok::<ExprV, ParseErrorV>(e3), s3));
    assert(p_factor_rest(c, s3, b) == (Ok::<ExprV, ParseErrorV>(b), s3));
    assert(p_factor_rest(c, s2, e2) == (Ok::<ExprV, ParseErrorV>(b), s3));
    assert(p_factor(c, advance(c, s1)) == (Ok::<ExprV, ParseErrorV>(b), s3));
    assert(p_factor_rest(c, s3, top) == (Ok::<ExprV, ParseErrorV>(top), s3));
    assert(p_factor_rest(c, s1, e1) == (Ok::<ExprV, ParseErrorV>(top), s3));
}

/// An atom, raised by `^` to a factor (right associative).
pub open spec fn p_factor(c: PCtx, st: PState) -> PRes
    decreases c.toks.len() - st.pos, 3nat,
{
    let (r, st1) = p_atom(c, st);
    if !moved(c, st, st1) {
        syntax_error(c, st1)
    } else {
        match r {
            Err(e) => (Err(e), st1),
            Ok(left) => p_factor_rest(c, st1, left),
        }
    }
}

/// The powers that follow the base `acc`.
pub open spec fn p_factor_rest(c: PCtx, st: PState, acc: ExprV) -> PRes
    decreases c.toks.len() - st.pos, 2nat,
{
    if peek(c, st) == Some(Token::POW) {
        let st1 = advance(c, st);
        let (r, st2) = p_factor(c, st1);
        if !moved(c, st1, st2) {
            syntax_error(c, st2)
        } else {
            match r {
                Err(e) => (Err(e), st2),
                Ok(right) => p_factor_rest(c, st2, ExprV::BinaryOp(Box::new(acc), "^"@, Box::new(right))),
            }
        }
    } else {
        (Ok(acc), st)
    }
}

/// A parenthesised expression, a number, a variable or list element, or a list.
pub open spec fn p_atom(c: PCtx, st: PState) -> PRes
    decreases c.toks.len() - st.pos, 1nat,
{
    match peek(c, st) {
        Some(Token::LPAREN) => {
            let (r, st1) = p_expression(c, advance(c, st));
            match r {
                Err(e) => (Err(e), st1),
                Ok(e) => {
                    let (ok, st2) = expect(c, st1, Token::RPAREN);
                    if ok { (Ok(e), st2) } else { syntax_error(c, st2) }
                },
            }
        },
        Some(Token::INT) => p_number(c, st, lit_of(c.toks[st.pos])),
        Some(Token::REAL) => p_number(c, st, lit_of(c.toks[st.pos])),
        Some(Token::VAR) => p_variable(c, st),
        Some(Token::LIST) => p_list(c, st),
        Some(Token::ERR) => syntax_error(c, st),
        _ => (Err(ParseErrorV::InvalidAtom(here(c, st))), st),
    }
}

/// A number: the token is taken, and the literal `lit` is its value. A number directly
/// followed by a negative number is read as a subtraction: the number after the
/// negative one, minus the negative one's magnitude.
pub open spec fn p_number(c: PCtx, st: PState, lit: LitV) -> PRes
    decreases c.toks.len() - st.pos, 0nat,
{
    let prev = kind_at(c, st.pos);
    let st1 = advance(c, st);
    let cur = kind_at(c, st1.pos);
    if prev.is_some() && is_number(prev.unwrap()) && cur.is_some() && is_number(cur.unwrap())
        && lit_negative(lit_of(c.toks[st1.pos])) {
        let cur_tok = c.toks[st1.pos];
        let (r1, st2) = p_number(c, st1, lit_of(c.toks[st.pos]));
        if !moved(c, st1, st2) {
            syntax_error(c, st2)
        } else {
            match r1 {
                Err(e) => (Err(e), st2),
                Ok(left) => {
                    let (r2, st3) = p_number(c, st2, lit_abs(lit_of(cur_tok)));
                    match r2 {
                        Err(e) => (Err(e), st3),
                        Ok(right) => (Ok(ExprV::BinaryOp(Box::new(left), "-"@, Box::new(right))), st3),
                    }
                },
            }
        }
    } else if cur.is_some() && !may_follow_number(cur.unwrap()) {
        syntax_error(c, st1)
    } else {
        (Ok(lit_expr(lit)), st1)
    }
}

/// A variable, or a list element `name[index]`, or an assignment to one
/// `name[index] = value`.
pub open spec fn p_variable(c: PCtx, st: PState) -> PRes
    decreases c.toks.len() - st.pos, 0nat,
{
    let name = c.toks[st.pos].0;
    let st1 = advance(c, st);
    if peek(c, st1) == Some(Token::LBRACKET) {
        let st2 = advance(c, st1);
        let (r, st3) = p_expression(c, st2);
        match r {
            Err(e) => (Err(e), st3),
            Ok(index) => {
                let (ok, st4) = expect(c, st3, Token::RBRACKET);
                if !ok {
                    syntax_error(c, st4)
                } else if !moved(c, st1, st4) {
                    syntax_error(c, st4)
                } else {
                    p_element(c, st4, name, index)
                }
            },
        }
    } else {
        match lookup(st1.vars, name) {
            None => (Err(ParseErrorV::UndefinedVariable(name, here(c, st1))), st1),
            Some(_) => (Ok(ExprV::Variable(name)), st1),
        }
    }
}

/// The index of `e` as a list index: an integer taken modulo the machine word.
pub open spec fn as_index(e: ExprV) -> Option<usize> {
    match e {
        ExprV::Int(n) => Some(n as usize),
        _ => None,
    }
}

/// `name[index]` once the brackets are read: an element access, or an assignment to
/// the element when `=` follows.
pub open spec fn p_element(c: PCtx, st: PState, name: Seq<char>, index: ExprV) -> PRes
    decreases c.toks.len() - st.pos, 0nat,
{
    match lookup(st.vars, name) {
        None => (Err(ParseErrorV::UndefinedVariable(name, here(c, st))), st),
        Some(ExprV::List(lst)) => match as_index(index) {
            None => syntax_error(c, st),
            Some(i) => if i >= lst.len() {
                (Err(ParseErrorV::IndexOutOfRange(here(c, st), i)), st)
            } else if peek(c, st) == Some(Token::ASSIGN) {
                let st1 = advance(c, st);
                let (r, st2) = p_expression(c, st1);
                match r {
                    Err(e) => (Err(e), st2),
                    Ok(value) => p_element_store(c, st2, name, index->Int_0, value),
                }
            } else {
                (Ok(ExprV::ListAccess(name, Box::new(index))), st)
            },
        },
        Some(_) => syntax_error(c, st),
    }
}

/// The list called `name` with element `i` set to `v` (unchanged when `i` is out of
/// range or the variable holds no list).
pub open spec fn store_element(vs: Seq<(Seq<char>, ExprV)>, name: Seq<char>, i: int, v: RealV) -> Seq<(Seq<char>, ExprV)> {
    match lookup(vs, name) {
        Some(ExprV::List(lst)) => if 0 <= i < lst.len() {
            assign(vs, name, ExprV::List(lst.update(i, v)))
        } else {
            vs
        },
        _ => vs,
    }
}

/// The name under which an element assignment is reported: `name[(n)]`.
pub open spec fn element_name(name: Seq<char>, n: i64) -> Seq<char> {
    name + "[("@ + int_text(n as int) + ")]"@
}

/// `name[i] = value` once `value` is read: a number is stored, or an element of another
/// list is copied; any other value is refused.
pub open spec fn p_element_store(c: PCtx, st: PState, name: Seq<char>, n: i64, value: ExprV) -> PRes {
    let i = n as usize;
    let done = ExprV::Assignment(element_name(name, n), Box::new(value));
    match value {
        ExprV::Int(n) => (Ok(done), PState { vars: store_element(st.vars, name, i as int, int_real(n as int)), ..st }),
        ExprV::Float(r) => (Ok(done), PState { vars: store_element(st.vars, name, i as int, r), ..st }),
        ExprV::ListAccess(other, other_index) => match lookup(st.vars, other) {
            Some(ExprV::List(src)) => match as_index(*other_index) {
                None => syntax_error(c, st),
                Some(j) => if j < src.len() {
                    (Ok(done), PState { vars: store_element(st.vars, name, i as int, src[j as int]), ..st })
                } else {
                    (Ok(done), st)
                },
            },
            _ => syntax_error(c, st),
        },
        _ => syntax_error(c, st),
    }
}

/// The value a list is filled with, from the expression after `list[n] =`.
pub open spec fn fill_value(e: ExprV) -> Option<RealV> {
    match e {
        ExprV::Int(n) => Some(int_real(n as int)),
        ExprV::Float(r) => Some(r),
        ExprV::UnaryOp(op, inner) => {
            let v = match *inner {
                ExprV::Int(n) => Some(int_real(n as int)),
                ExprV::Float(r) => Some(r),
                _ => None,
            };
            match v {
                None => None,
                Some(x) => if op == "-"@ { Some(RealV { negative: !x.negative, ..x }) } else { Some(x) },
            }
        },
        _ => None,
    }
}

/// The size written in `list[n]`: an unsigned integer numeral that fits a `usize`.
pub open spec fn list_size(p: (Seq<char>, Token)) -> Option<usize> {
    if p.1 != Token::INT || (p.0.len() > 0 && p.0[0] == '-') {
        None
    } else {
        match parse_real(p.0) {
            Some(v) => if v.frac.len() == 0 && !p.0.contains('.') && digits_value(v.whole) <= usize::MAX {
                Some(digits_value(v.whole) as usize)
            } else {
                None
            },
            None => None,
        }
    }
}

/// `list[n]`, optionally followed by `= value` (every element set to a number), `= name`
/// (a copy of a list of the same size) or `= list[n]`; the elements start at zero.
pub open spec fn p_list(c: PCtx, st: PState) -> PRes
    decreases c.toks.len() - st.pos, 0nat,
{
    let st1 = advance(c, st);
    let (ok, st2) = expect(c, st1, Token::LBRACKET);
    if !ok {
        syntax_error(c, st2)
    } else if peek(c, st2) == Some(Token::RBRACKET) {
        (Err(ParseErrorV::MissingIndex(here(c, st2))), st2)
    } else {
        let st3 = advance(c, st2);
        let size = if 0 <= st2.pos < c.toks.len() { list_size(c.toks[st2.pos]) } else { None };
        match size {
            None => syntax_error(c, st3),
            Some(n) => if n == 0 {
                syntax_error(c, st3)
            } else {
                let (ok2, st4) = expect(c, st3, Token::RBRACKET);
                if !ok2 {
                    syntax_error(c, st4)
                } else if peek(c, st4) == Some(Token::ASSIGN) {
                    let st5 = advance(c, st4);
                    match peek(c, st5) {
                        Some(t) => if is_number(t) {
                            let (r, st6) = p_expression(c, st5);
                            match r {
                                Err(e) => (Err(e), st6),
                                Ok(e) => match fill_value(e) {
                                    None => syntax_error(c, st6),
                                    Some(v) => (Ok(ExprV::List(Seq::new(n as nat, |k: int| v))), st6),
                                },
                            }
                        } else if t == Token::VAR {
                            let (r, st6) = p_expression(c, st5);
                            match r {
                                Err(e) => (Err(e), st6),
                                Ok(ExprV::Variable(name)) => match lookup(st6.vars, name) {
                                    Some(ExprV::List(src)) => if src.len() != n {
                                        syntax_error(c, st6)
                                    } else {
                                        (Ok(ExprV::List(src)), st6)
                                    },
                                    _ => syntax_error(c, st6),
                                },
                                Ok(_) => syntax_error(c, st6),
                            }
                        } else if t == Token::LIST {
                            let (r, st6) = p_expression(c, st5);
                            match r {
                                Err(e) => (Err(e), st6),
                                Ok(ExprV::List(other)) => if other.len() != n {
                                    syntax_error(c, st6)
                                } else {
                                    (Ok(ExprV::List(other)), st6)
                                },
                                Ok(_) => syntax_error(c, st6),
                            }
                        } else {
                            syntax_error(c, st5)
                        },
                        None => syntax_error(c, st5),
                    }
                } else {
                    (Ok(ExprV::List(Seq::new(n as nat, |k: int| RealV { negative: false, whole: Seq::empty(), frac: Seq::empty() }))), st4)
                }
            },
        }
    }
}


/// A number token's lexeme is a numeral (without a point for an integer).
pub open spec fn token_ok(p: (Seq<char>, Token)) -> bool {
    &&& p.1 == Token::INT ==> (parse_real(p.0) matches Some(v) && v.frac.len() == 0 && !p.0.contains('.'))
    &&& p.1 == Token::REAL ==> parse_real(p.0) is Some
}

/// Digits counted in a piece of `s` are the digits of `s` there, up to the piece's end.
proof fn lemma_count_digits_piece(s: Seq<char>, i: int, j: int, m: int)
    requires
        0 <= i <= j <= s.len(),
        0 <= m <= j - i,
    ensures
        crate::number::count_digits_from(s.subrange(i, j), m) as int
            == if crate::scanner::digits_from(s, i + m) as int <= j - i - m { crate::scanner::digits_from(s, i + m) as int } else { j - i - m },
    decreases j - i - m,
{
    let x = s.subrange(i, j);
    if m < j - i {
        assert(x[m] == s[i + m]);
        if crate::text::is_digit(s[i + m]) {
            lemma_count_digits_piece(s, i, j, m + 1);
        }
    }
}

proof fn lemma_digits_fit(s: Seq<char>, d: int)
    requires
        0 <= d,
    ensures
        d <= s.len() ==> d + crate::scanner::digits_from(s, d) <= s.len(),
        forall|k: int| d <= k < d + crate::scanner::digits_from(s, d) ==> crate::text::is_digit(#[trigger] s[k]),
    decreases s.len() - d,
{
    if 0 <= d < s.len() && crate::text::is_digit(s[d]) {
        lemma_digits_fit(s, d + 1);
    }
}

/// A number token read by the lexer is a numeral.
proof fn lemma_number_token_ok(s: Seq<char>, i: int)
    requires
        0 <= i < s.len(),
        !crate::scanner::is_space(s[i]),
        crate::scanner::token_at(s, i).0 >= 1,
        i + crate::scanner::token_at(s, i).0 <= s.len(),
    ensures
        token_ok((s.subrange(i, i + crate::scanner::token_at(s, i).0), crate::scanner::token_at(s, i).1)),
{
    let (k, t) = crate::scanner::token_at(s, i);
    let c = s[i];
    let number = crate::text::is_digit(c) || (c == '-' && 0 <= i + 1 < s.len() && crate::text::is_digit(s[i + 1]));
    if number {
        let d = if crate::text::is_digit(c) { i } else { i + 1 };
        lemma_digits_fit(s, d);
        let e = d + crate::scanner::digits_from(s, d);
        let x = s.subrange(i, i + k);
        let b = d - i;
        assert(crate::scanner::digits_from(s, d) >= 1);
        assert((x.len() > 0 && x[0] == '-') == (d == i + 1));
        lemma_count_digits_piece(s, i, i + k, b);
        if t == crate::scanner::Token::INT {
            assert(k == e - i);
            assert(!x.contains('.')) by {
                if x.contains('.') {
                    let p = choose|p: int| 0 <= p < x.len() && x[p] == '.';
                    assert(x[p] == s[i + p]);
                }
            }
        } else {
            assert(t == crate::scanner::Token::REAL);
            lemma_digits_fit(s, e + 1);
            assert(x[e - i] == s[e]);
            lemma_count_digits_piece(s, i, i + k, e - i + 1);
        }
    }
}

/// The lexer's number tokens are numerals: what parsing asks of its tokens holds of
/// what `tokenize` gives.
pub proof fn law_lexer_tokens_ok(s: Seq<char>)
    ensures
        tokens_ok(crate::scanner::lex(s)),
{
    lemma_lex_from_ok(s, 0);
}

proof fn lemma_lex_from_ok(s: Seq<char>, i: int)
    requires
        0 <= i,
    ensures
        tokens_ok(crate::scanner::lex_from(s, i)),
    decreases s.len() - i,
{
    if i < s.len() {
        if crate::scanner::is_space(s[i]) {
            lemma_lex_from_ok(s, i + 1);
        } else {
            let (k, t) = crate::scanner::token_at(s, i);
            if k != 0 && i + k <= s.len() {
                lemma_lex_from_ok(s, i + k);
                lemma_number_token_ok(s, i);
                let toks = seq![(s.subrange(i, i + k), t)] + crate::scanner::lex_from(s, i + k);
                assert forall|j: int| 0 <= j < toks.len() implies token_ok(#[trigger] toks[j]) by {
                    if j > 0 { assert(toks[j] == crate::scanner::lex_from(s, i + k)[j - 1]); }
                }
            }
        }
    }
}

/// An integer literal right after a number is not a negative one of more than 63 bits:
/// such a pair is read as a subtraction, whose right side must fit a 64-bit magnitude.
pub open spec fn pair_ok(prev: (Seq<char>, Token), cur: (Seq<char>, Token)) -> bool {
    is_number(prev.1) && cur.1 == Token::INT ==> (lit_of(cur) matches LitV::I(x) && x >= -(i64::MAX as int))
}

/// The number tokens are numerals.
pub open spec fn tokens_ok(t: Seq<(Seq<char>, Token)>) -> bool {
    forall|i: int| 0 <= i < t.len() ==> token_ok(#[trigger] t[i])
}

/// No wide negative integer follows a number on the line (see `pair_ok`).
#[verifier::opaque]
pub open spec fn pairs_ok(t: Seq<(Seq<char>, Token)>) -> bool {
    forall|i: int| 1 <= i < t.len() ==> pair_ok(t[i - 1], #[trigger] t[i])
}

/// The view of a variable table.
pub open spec fn vars_view(v: Seq<(String, Expr)>) -> Seq<(Seq<char>, ExprV)> {
    v.map_values(|p: (String, Expr)| (p.0@, p.1@))
}

/// A number literal as read from a token: an integer as its sign and its magnitude
/// cut down to the largest `i64`, or a decimal.
enum Lit {
    I(bool, i64),
    R(Real),
}

/// `l` holds the literal `v`.
spec fn lit_holds(l: Lit, v: LitV) -> bool {
    match (l, v) {
        (Lit::I(neg, mag), LitV::I(x)) => neg == (x < 0) && mag == clamp_i64(if x < 0 { (-x) as nat } else { x as nat }),
        (Lit::R(r), LitV::R(rv)) => r@ == rv,
        _ => false,
    }
}

fn lit_of_token(p: &(String, Token)) -> (l: Lit)
    requires
        token_ok((p.0@, p.1)),
        is_number(p.1),
    ensures
        lit_holds(l, lit_of((p.0@, p.1))),
{
    if p.1 == Token::INT {
        match int_magnitude(p.0.as_str()) {
            Some((m, neg)) => {
                let mag: i64 = match m {
                    Some(x) => if x > i64::MAX as u64 { i64::MAX } else { x as i64 },
                    None => i64::MAX,
                };
                Lit::I(neg, mag)
            },
            None => {
                proof { assert(false); }
                Lit::I(false, 0)
            },
        }
    } else {
        match Real::parse(p.0.as_str()) {
            Some(r) => Lit::R(r),
            None => {
                proof { assert(false); }
                Lit::I(false, 0)
            },
        }
    }
}

fn lit_is_negative(l: &Lit, Ghost(v): Ghost<LitV>) -> (b: bool)
    requires
        lit_holds(*l, v),
    ensures
        b == lit_negative(v),
{
    match l {
        Lit::I(neg, _) => *neg,
        Lit::R(r) => r.is_negative(),
    }
}

fn lit_magnitude(l: &Lit, Ghost(v): Ghost<LitV>) -> (r: Lit)
    requires
        lit_holds(*l, v),
    ensures
        lit_holds(r, lit_abs(v)),
{
    match l {
        Lit::I(_, m) => Lit::I(false, *m),
        Lit::R(r) => Lit::R(r.abs()),
    }
}

fn lit_expression(l: Lit, Ghost(v): Ghost<LitV>) -> (e: Expr)
    requires
        lit_holds(l, v),
    ensures
        e@ == lit_expr(v),
{
    proof { reveal_with_fuel(expr_view, 2); }
    match l {
        Lit::I(neg, m) => if neg {
            Expr::UnaryOp(owned("-"), Box::new(Expr::Int(m)))
        } else {
            Expr::Int(m)
        },
        Lit::R(r) => if r.is_negative() {
            Expr::UnaryOp(owned("-"), Box::new(Expr::Float(r.abs())))
        } else {
            Expr::Float(r)
        },
    }
}

fn copy_reals(v: &Vec<Real>) -> (r: Vec<Real>)
    ensures
        reals_view(r@) == reals_view(v@),
{
    let mut r: Vec<Real> = Vec::new();
    for i in 0..v.len()
        invariant
            reals_view(r@) == reals_view(v@).take(i as int),
    {
        r.push(v[i].copy());
        assert(reals_view(v@).take(i + 1) == reals_view(v@).take(i as int).push(v@[i as int]@));
    }
    assert(reals_view(v@).take(v.len() as int) == reals_view(v@));
    r
}

impl Expr {
    /// A copy of this expression.
    pub fn copy(&self) -> (r: Expr)
        ensures
            r@ == self@,
        decreases self,
    {
        match self {
            Expr::Int(n) => Expr::Int(*n),
            Expr::Float(x) => Expr::Float(x.copy()),
            Expr::Variable(name) => Expr::Variable(name.clone()),
            Expr::BinaryOp(l, op, r) => Expr::BinaryOp(Box::new(l.copy()), op.clone(), Box::new(r.copy())),
            Expr::Assignment(name, v) => Expr::Assignment(name.clone(), Box::new(v.copy())),
            Expr::Boolean(l, op, r) => Expr::Boolean(Box::new(l.copy()), op.clone(), Box::new(r.copy())),
            Expr::List(v) => Expr::List(copy_reals(v)),
            Expr::ListAccess(name, i) => Expr::ListAccess(name.clone(), Box::new(i.copy())),
            Expr::UnaryOp(op, v) => Expr::UnaryOp(op.clone(), Box::new(v.copy())),
        }
    }
}

fn negate_exec(e: Expr) -> (r: Expr)
    ensures
        r@ == negate(e@),
{
    proof { reveal_with_fuel(expr_view, 3); }
    match e {
        Expr::Variable(name) => Expr::UnaryOp(owned("-"), Box::new(Expr::Variable(name))),
        Expr::Boolean(l, op, r) => match *l {
            Expr::Variable(name) => Expr::Boolean(
                Box::new(Expr::UnaryOp(owned("-"), Box::new(Expr::Variable(name)))), op, r),
            other => Expr::Boolean(Box::new(other), op, r),
        },
        other => Expr::UnaryOp(owned("-"), Box::new(other)),
    }
}

fn is_list_exec(e: &Expr) -> (b: bool)
    ensures
        b == is_list(e@),
{
    match e {
        Expr::List(_) => true,
        _ => false,
    }
}

fn comparison_string(t: Token) -> (s: String)
    ensures
        s@ == comparison_text(t),
{
    match t {
        Token::EQ => owned("=="),
        Token::NE => owned("!="),
        Token::GT => owned(">"),
        Token::LT => owned("<"),
        Token::GE => owned(">="),
        _ => owned("<="),
    }
}

fn is_comparison_exec(t: Token) -> (b: bool)
    ensures
        b == is_comparison(t),
{
    t == Token::EQ || t == Token::NE || t == Token::GT || t == Token::LT || t == Token::GE || t == Token::LE
}

/// Column utilities.
pub struct TokenInfo;

impl TokenInfo {
    /// The number of columns the token takes (see `token_length`).
    pub fn token_length(lexeme: &String, token: &Token) -> (n: usize)
        ensures
            n == token_length((lexeme@, *token)),
    {
        match token {
            Token::VAR | Token::INT | Token::REAL => byte_count(lexeme),
            Token::EQ | Token::NE | Token::LE | Token::GE | Token::INTDIV => 2,
            Token::LIST => 4,
            _ => 1,
        }
    }
}

/// A parser: the current line's tokens, the next token's index, the variables assigned
/// so far, the current line number and running column, and the columns of the current
/// line's tokens.
pub struct Parser {
    tokens: Vec<(String, Token)>,
    pos: usize,
    variables: Vec<(String, Expr)>,
    current_line: usize,
    current_column: usize,
    token_positions: Vec<usize>,
}

impl Parser {
    /// The fixed input of the current line's parse.
    pub closed spec fn ctx(&self) -> PCtx {
        PCtx { toks: crate::scanner::pairs_view(self.tokens@), positions: self.token_positions@, line: self.current_line }
    }

    /// The changing state of the parse.
    pub closed spec fn state(&self) -> PState {
        PState { pos: self.pos as int, col: self.current_column as int, vars: vars_view(self.variables@) }
    }

    /// The parser can run: the next token's index is within the tokens, and the number
    /// tokens are numerals (see `token_ok`).
    pub open spec fn wf(&self) -> bool {
        &&& 0 <= self.state().pos <= self.ctx().toks.len()
        &&& tokens_ok(self.ctx().toks)
    }

    /// A parser over `tokens`, at the first token, on line 1, column 1, with no variables.
    pub fn new(tokens: Vec<(String, Token)>) -> (p: Parser)
        ensures
            p.ctx() == (PCtx { toks: crate::scanner::pairs_view(tokens@), positions: Seq::empty(), line: 1 }),
            p.state() == (PState { pos: 0, col: 1, vars: Seq::empty() }),
    {
        let p = Parser {
            tokens,
            pos: 0,
            variables: Vec::new(),
            current_line: 1,
            current_column: 1,
            token_positions: Vec::new(),
        };
        assert(vars_view(p.variables@) =~= Seq::<(Seq<char>, ExprV)>::empty());
        p
    }

    fn peek_kind(&self) -> (t: Option<Token>)
        ensures
            t == peek(self.ctx(), self.state()),
    {
        if self.pos < self.tokens.len() { Some(self.tokens[self.pos].1) } else { None }
    }

    fn kind_at_exec(&self, i: usize) -> (t: Option<Token>)
        ensures
            t == kind_at(self.ctx(), i as int),
    {
        if i < self.tokens.len() { Some(self.tokens[i].1) } else { None }
    }

    fn advance(&mut self)
        requires
            old(self).wf(),
        ensures
            final(self).wf(),
            final(self).ctx() == old(self).ctx(),
            final(self).state() == advance(old(self).ctx(), old(self).state()),
    {
        if self.pos < self.tokens.len() {
            let n = TokenInfo::token_length(&self.tokens[self.pos].0, &self.tokens[self.pos].1);
            self.current_column = self.current_column.saturating_add(n);
            self.pos = self.pos + 1;
            if self.pos < self.tokens.len() {
                self.current_column = self.current_column.saturating_add(1);
            }
        }
    }

    fn here_exec(&self) -> (p: Position)
        ensures
            p == here(self.ctx(), self.state()),
    {
        Position {
            line: self.current_line,
            column: if self.pos > 0 && self.pos <= self.token_positions.len() {
                self.token_positions[self.pos - 1]
            } else if self.token_positions.len() > 0 {
                self.token_positions[0]
            } else {
                self.current_column
            },
        }
    }

    fn syntax(&self) -> (e: ParseError)
        ensures
            e@ == ParseErrorV::SyntaxError(here(self.ctx(), self.state())),
    {
        ParseError::SyntaxError(self.here_exec())
    }

    fn expect_exec(&mut self, t: Token) -> (ok: bool)
        requires
            old(self).wf(),
        ensures
            final(self).wf(),
            final(self).ctx() == old(self).ctx(),
            (ok, final(self).state()) == expect(old(self).ctx(), old(self).state(), t),
    {
        if self.peek_kind() == Some(t) {
            self.advance();
            true
        } else {
            false
        }
    }

    fn find_var(&self, name: &String) -> (k: usize)
        ensures
            k as int == var_index(self.state().vars, name@),
            k <= self.variables.len(),
    {
        let ghost vs = self.state().vars;
        let mut k: usize = 0;
        while k < self.variables.len()
            invariant
                k <= self.variables.len(),
                vs == vars_view(self.variables@),
                var_index(vs, name@) == var_index_from(vs, name@, k as int),
            decreases self.variables.len() - k,
        {
            if self.variables[k].0 == *name {
                return k;
            }
            k = k + 1;
        }
        k
    }

    fn assign_var(&mut self, name: String, v: Expr)
        ensures
            final(self).ctx() == old(self).ctx(),
            final(self).state() == (PState { vars: assign(old(self).state().vars, name@, v@), ..old(self).state() }),
    {
        let k = self.find_var(&name);
        let ghost nv = name@;
        let ghost vv = v@;
        if k < self.variables.len() {
            self.variables.set(k, (name, v));
            assert(vars_view(self.variables@) == vars_view(old(self).variables@).update(k as int, (nv, vv)));
        } else {
            self.variables.push((name, v));
            assert(vars_view(self.variables@) == vars_view(old(self).variables@).push((nv, vv)));
        }
    }

    /// The length of the list held by variable `k`, if it holds one.
    fn list_len(&self, k: usize) -> (r: Option<usize>)
        requires
            k < self.variables.len(),
        ensures
            match self.state().vars[k as int].1 {
                ExprV::List(l) => r == Some(l.len() as usize) && l.len() <= usize::MAX,
                _ => r is None,
            },
    {
        match &self.variables[k].1 {
            Expr::List(l) => Some(l.len()),
            _ => None,
        }
    }

    /// A copy of the list held by variable `k`, if it holds one.
    fn list_copy(&self, k: usize) -> (r: Option<Vec<Real>>)
        requires
            k < self.variables.len(),
        ensures
            match self.state().vars[k as int].1 {
                ExprV::List(l) => r matches Some(v) && reals_view(v@) == l,
                _ => r is None,
            },
    {
        match &self.variables[k].1 {
            Expr::List(l) => Some(copy_reals(l)),
            _ => None,
        }
    }

    fn store_element_exec(&mut self, name: &String, i: usize, v: Real)
        ensures
            final(self).ctx() == old(self).ctx(),
            final(self).state() == (PState {
                vars: store_element(old(self).state().vars, name@, i as int, v@), ..old(self).state() }),
    {
        let k = self.find_var(name);
        if k < self.variables.len() {
            match self.list_copy(k) {
                Some(mut items) => {
                    if i < items.len() {
                        let ghost before = reals_view(items@);
                        let ghost vv = v@;
                        items.set(i, v);
                        assert(reals_view(items@) == before.update(i as int, vv));
                        self.assign_var(name.clone(), Expr::List(items));
                    }
                },
                None => {},
            }
        }
    }

    /// Parses one line: the current tokens from the next one on.
    pub fn parse(&mut self) -> (r: Result<Expr, ParseError>)
        requires
            old(self).wf(),
            pairs_ok(old(self).ctx().toks),
        ensures
            final(self).wf(),
            final(self).ctx() == old(self).ctx(),
            (result_view(r), final(self).state()) == p_calculation(old(self).ctx(), old(self).state()),
    {
        self.parse_calculation()
    }

    fn parse_calculation(&mut self) -> (r: Result<Expr, ParseError>)
        requires
            old(self).wf(),
        ensures
            final(self).wf(),
            final(self).ctx() == old(self).ctx(),
            moved(old(self).ctx(), old(self).state(), final(self).state()),
            (result_view(r), final(self).state()) == p_calculation(old(self).ctx(), old(self).state()),
        decreases old(self).tokens.len() - old(self).pos, 10nat,
    {
        if self.pos < self.tokens.len() && self.tokens[self.pos].1 == Token::VAR
            && self.kind_at_exec(self.pos + 1) == Some(Token::ASSIGN) {
            return self.parse_assignment();
        }
        let left = match self.parse_boolean() {
            Ok(e) => e,
            Err(e) => return Err(e),
        };
        if self.pos < self.tokens.len() && is_comparison_exec(self.tokens[self.pos].1) {
            let op = comparison_string(self.tokens[self.pos].1);
            self.advance();
            match self.parse_expression() {
                Ok(right) => Ok(Expr::Boolean(Box::new(left), op, Box::new(right))),
                Err(e) => Err(e),
            }
        } else {
            Ok(left)
        }
    }

    fn parse_assignment(&mut self) -> (r: Result<Expr, ParseError>)
        requires
            old(self).wf(),
        ensures
            final(self).wf(),
            final(self).ctx() == old(self).ctx(),
            moved(old(self).ctx(), old(self).state(), final(self).state()),
            (result_view(r), final(self).state()) == p_assignment(old(self).ctx(), old(self).state()),
        decreases old(self).tokens.len() - old(self).pos, 9nat,
    {
        if self.peek_kind() != Some(Token::VAR) {
            self.advance();
            return Err(self.syntax());
        }
        let name = self.tokens[self.pos].0.clone();
        self.advance();
        if !self.expect_exec(Token::ASSIGN) {
            return Err(self.syntax());
        }
        let v = match self.parse_expression() {
            Ok(e) => e,
            Err(e) => return Err(e),
        };
        match &v {
            Expr::List(l) => {
                if l.len() == 0 {
                    return Err(self.syntax());
                }
            },
            _ => {},
        }
        self.assign_var(name.clone(), v.copy());
        Ok(Expr::Assignment(name, Box::new(v)))
    }

    fn parse_boolean(&mut self) -> (r: Result<Expr, ParseError>)
        requires
            old(self).wf(),
        ensures
            final(self).wf(),
            final(self).ctx() == old(self).ctx(),
            moved(old(self).ctx(), old(self).state(), final(self).state()),
            (result_view(r), final(self).state()) == p_boolean(old(self).ctx(), old(self).state()),
        decreases old(self).tokens.len() - old(self).pos, 8nat,
    {
        let negative = self.peek_kind() == Some(Token::SUB);
        if negative {
            self.advance();
        }
        let left = match self.parse_expression() {
            Ok(e) => e,
            Err(e) => return Err(e),
        };
        if negative { Ok(negate_exec(left)) } else { Ok(left) }
    }

    fn parse_expression(&mut self) -> (r: Result<Expr, ParseError>)
        requires
            old(self).wf(),
        ensures
            final(self).wf(),
            final(self).ctx() == old(self).ctx(),
            moved(old(self).ctx(), old(self).state(), final(self).state()),
            (result_view(r), final(self).state()) == p_expression(old(self).ctx(), old(self).state()),
        decreases old(self).tokens.len() - old(self).pos, 7nat,
    {
        let left = match self.parse_term() {
            Ok(e) => e,
            Err(e) => return Err(e),
        };
        self.parse_expression_rest(left)
    }

    fn parse_expression_rest(&mut self, acc: Expr) -> (r: Result<Expr, ParseError>)
        requires
            old(self).wf(),
        ensures
            final(self).wf(),
            final(self).ctx() == old(self).ctx(),
            moved(old(self).ctx(), old(self).state(), final(self).state()),
            (result_view(r), final(self).state()) == p_expression_rest(old(self).ctx(), old(self).state(), acc@),
        decreases old(self).tokens.len() - old(self).pos, 6nat,
    {
        match self.peek_kind() {
            Some(t) => {
                if t == Token::ADD || t == Token::SUB || is_comparison_exec(t) {
                    self.advance();
                    let right = match self.parse_term() {
                        Ok(e) => e,
                        Err(e) => return Err(e),
                    };
                    if t == Token::ADD || t == Token::SUB {
                        if is_list_exec(&acc) || is_list_exec(&right) {
                            return Err(self.syntax());
                        }
                        let op = if t == Token::ADD { owned("+") } else { owned("-") };
                        self.parse_expression_rest(Expr::BinaryOp(Box::new(acc), op, Box::new(right)))
                    } else {
                        let op = comparison_string(t);
                        self.parse_expression_rest(Expr::Boolean(Box::new(acc), op, Box::new(right)))
                    }
                } else {
                    Ok(acc)
                }
            },
            None => Ok(acc),
        }
    }

    fn parse_term(&mut self) -> (r: Result<Expr, ParseError>)
        requires
            old(self).wf(),
        ensures
            final(self).wf(),
            final(self).ctx() == old(self).ctx(),
            moved(old(self).ctx(), old(self).state(), final(self).state()),
            (result_view(r), final(self).state()) == p_term(old(self).ctx(), old(self).state()),
        decreases old(self).tokens.len() - old(self).pos, 5nat,
    {
        let left = match self.parse_factor() {
            Ok(e) => e,
            Err(e) => return Err(e),
        };
        self.parse_term_rest(left)
    }

    fn parse_term_rest(&mut self, acc: Expr) -> (r: Result<Expr, ParseError>)
        requires
            old(self).wf(),
        ensures
            final(self).wf(),
            final(self).ctx() == old(self).ctx(),
            moved(old(self).ctx(), old(self).state(), final(self).state()),
            (result_view(r), final(self).state()) == p_term_rest(old(self).ctx(), old(self).state(), acc@),
        decreases old(self).tokens.len() - old(self).pos, 4nat,
    {
        match self.peek_kind() {
            Some(t) => {
                if t == Token::MUL || t == Token::DIV {
                    self.advance();
                    if self.peek_kind() == Some(Token::LIST) {
                        return Err(self.syntax());
                    }
                    let right = match self.parse_factor() {
                        Ok(e) => e,
                        Err(e) => return Err(e),
                    };
                    if is_list_exec(&acc) || is_list_exec(&right) {
                        return Err(self.syntax());
                    }
                    if t == Token::DIV {
                        let zero = match &right {
                            Expr::Int(n) => *n == 0,
                            Expr::Float(x) => x.is_zero(),
                            _ => false,
                        };
                        if zero {
                            return Err(ParseError::DivisionByZero(self.here_exec()));
                        }
                    }
                    let op = if t == Token::MUL { owned("*") } else { owned("/") };
                    self.parse_term_rest(Expr::BinaryOp(Box::new(acc), op, Box::new(right)))
                } else {
                    Ok(acc)
                }
            },
            None => Ok(acc),
        }
    }

    fn parse_factor(&mut self) -> (r: Result<Expr, ParseError>)
        requires
            old(self).wf(),
        ensures
            final(self).wf(),
            final(self).ctx() == old(self).ctx(),
            moved(old(self).ctx(), old(self).state(), final(self).state()),
            (result_view(r), final(self).state()) == p_factor(old(self).ctx(), old(self).state()),
        decreases old(self).tokens.len() - old(self).pos, 3nat,
    {
        let left = match self.parse_atom() {
            Ok(e) => e,
            Err(e) => return Err(e),
        };
        self.parse_factor_rest(left)
    }

    fn parse_factor_rest(&mut self, acc: Expr) -> (r: Result<Expr, ParseError>)
        requires
            old(self).wf(),
        ensures
            final(self).wf(),
            final(self).ctx() == old(self).ctx(),
            moved(old(self).ctx(), old(self).state(), final(self).state()),
            (result_view(r), final(self).state()) == p_factor_rest(old(self).ctx(), old(self).state(), acc@),
        decreases old(self).tokens.len() - old(self).pos, 2nat,
    {
        if self.peek_kind() == Some(Token::POW) {
            self.advance();
            let right = match self.parse_factor() {
                Ok(e) => e,
                Err(e) => return Err(e),
            };
            self.parse_factor_rest(Expr::BinaryOp(Box::new(acc), owned("^"), Box::new(right)))
        } else {
            Ok(acc)
        }
    }

    fn parse_atom(&mut self) -> (r: Result<Expr, ParseError>)
        requires
            old(self).wf(),
        ensures
            final(self).wf(),
            final(self).ctx() == old(self).ctx(),
            moved(old(self).ctx(), old(self).state(), final(self).state()),
            (result_view(r), final(self).state()) == p_atom(old(self).ctx(), old(self).state()),
        decreases old(self).tokens.len() - old(self).pos, 1nat,
    {
        match self.peek_kind() {
            Some(Token::LPAREN) => {
                self.advance();
                let e = match self.parse_expression() {
                    Ok(e) => e,
                    Err(e) => return Err(e),
                };
                if self.expect_exec(Token::RPAREN) { Ok(e) } else { Err(self.syntax()) }
            },
            Some(Token::INT) | Some(Token::REAL) => {
                proof { assert(token_ok(self.ctx().toks[self.pos as int])); }
                let lit = lit_of_token(&self.tokens[self.pos]);
                self.parse_number(lit, Ghost(lit_of(self.ctx().toks[self.pos as int])))
            },
            Some(Token::VAR) => self.parse_variable(),
            Some(Token::LIST) => self.parse_list(),
            Some(Token::ERR) => Err(self.syntax()),
            _ => Err(ParseError::InvalidAtom(self.here_exec())),
        }
    }

    fn parse_number(&mut self, lit: Lit, Ghost(v): Ghost<LitV>) -> (r: Result<Expr, ParseError>)
        requires
            old(self).wf(),
            lit_holds(lit, v),
        ensures
            final(self).wf(),
            final(self).ctx() == old(self).ctx(),
            moved(old(self).ctx(), old(self).state(), final(self).state()),
            (result_view(r), final(self).state()) == p_number(old(self).ctx(), old(self).state(), v),
        decreases old(self).tokens.len() - old(self).pos, 0nat,
    {
        let prev_index = self.pos;
        let prev = self.kind_at_exec(prev_index);
        self.advance();
        let cur = self.peek_kind();
        let prev_number = match prev { Some(t) => t == Token::INT || t == Token::REAL, None => false };
        let cur_number = match cur { Some(t) => t == Token::INT || t == Token::REAL, None => false };
        if prev_number && cur_number {
            proof { assert(token_ok(self.ctx().toks[self.pos as int])); }
            let ghost cur_v = lit_of(self.ctx().toks[self.pos as int]);
            let cur_lit = lit_of_token(&self.tokens[self.pos]);
            if lit_is_negative(&cur_lit, Ghost(cur_v)) {
                proof { assert(token_ok(self.ctx().toks[prev_index as int])); }
                let ghost prev_v = lit_of(self.ctx().toks[prev_index as int]);
                let prev_lit = lit_of_token(&self.tokens[prev_index]);
                let left = match self.parse_number(prev_lit, Ghost(prev_v)) {
                    Ok(e) => e,
                    Err(e) => return Err(e),
                };
                let right = match self.parse_number(lit_magnitude(&cur_lit, Ghost(cur_v)), Ghost(lit_abs(cur_v))) {
                    Ok(e) => e,
                    Err(e) => return Err(e),
                };
                return Ok(Expr::BinaryOp(Box::new(left), owned("-"), Box::new(right)));
            }
        }
        match cur {
            Some(t) => {
                let follows = t == Token::ADD || t == Token::SUB || t == Token::MUL || t == Token::DIV
                    || t == Token::INTDIV || t == Token::POW || is_comparison_exec(t) || t == Token::LPAREN
                    || t == Token::RPAREN || t == Token::RBRACKET;
                if !follows {
                    return Err(self.syntax());
                }
            },
            None => {},
        }
        Ok(lit_expression(lit, Ghost(v)))
    }

    fn parse_variable(&mut self) -> (r: Result<Expr, ParseError>)
        requires
            old(self).wf(),
            peek(old(self).ctx(), old(self).state()) == Some(Token::VAR),
        ensures
            final(self).wf(),
            final(self).ctx() == old(self).ctx(),
            moved(old(self).ctx(), old(self).state(), final(self).state()),
            (result_view(r), final(self).state()) == p_variable(old(self).ctx(), old(self).state()),
        decreases old(self).tokens.len() - old(self).pos, 0nat,
    {
        let name = self.tokens[self.pos].0.clone();
        self.advance();
        if self.peek_kind() == Some(Token::LBRACKET) {
            self.advance();
            let index = match self.parse_expression() {
                Ok(e) => e,
                Err(e) => return Err(e),
            };
            if !self.expect_exec(Token::RBRACKET) {
                return Err(self.syntax());
            }
            self.parse_element(name, index)
        } else {
            let k = self.find_var(&name);
            if k >= self.variables.len() {
                Err(ParseError::UndefinedVariable(name, self.here_exec()))
            } else {
                Ok(Expr::Variable(name))
            }
        }
    }

    fn parse_element(&mut self, name: String, index: Expr) -> (r: Result<Expr, ParseError>)
        requires
            old(self).wf(),
        ensures
            final(self).wf(),
            final(self).ctx() == old(self).ctx(),
            moved(old(self).ctx(), old(self).state(), final(self).state()),
            (result_view(r), final(self).state()) == p_element(old(self).ctx(), old(self).state(), name@, index@),
        decreases old(self).tokens.len() - old(self).pos, 0nat,
    {
        let k = self.find_var(&name);
        if k >= self.variables.len() {
            return Err(ParseError::UndefinedVariable(name, self.here_exec()));
        }
        let len = match self.list_len(k) {
            Some(n) => n,
            None => return Err(self.syntax()),
        };
        let (i, n) = match &index {
            Expr::Int(n) => (*n as usize, *n),
            _ => return Err(self.syntax()),
        };
        if i >= len {
            return Err(ParseError::IndexOutOfRange(self.here_exec(), i));
        }
        if self.peek_kind() == Some(Token::ASSIGN) {
            self.advance();
            let value = match self.parse_expression() {
                Ok(e) => e,
                Err(e) => return Err(e),
            };
            self.store_value(name, n, value)
        } else {
            Ok(Expr::ListAccess(name, Box::new(index)))
        }
    }

    fn store_value(&mut self, name: String, n: i64, value: Expr) -> (r: Result<Expr, ParseError>)
        requires
            old(self).wf(),
        ensures
            final(self).wf(),
            final(self).ctx() == old(self).ctx(),
            final(self).state().pos == old(self).state().pos,
            (result_view(r), final(self).state()) == p_element_store(old(self).ctx(), old(self).state(), name@, n, value@),
    {
        proof { reveal_with_fuel(expr_view, 2); }
        let i = n as usize;
        let mut label: Vec<char> = chars_of(name.as_str());
        push_str(&mut label, "[(");
        push_int(&mut label, n);
        push_str(&mut label, ")]");
        let label = string_of(&label);
        match &value {
            Expr::Int(v) => {
                self.store_element_exec(&name, i, Real::from_int(*v));
            },
            Expr::Float(x) => {
                self.store_element_exec(&name, i, x.copy());
            },
            Expr::ListAccess(other, other_index) => {
                let k = self.find_var(other);
                if k >= self.variables.len() {
                    return Err(self.syntax());
                }
                let src_len = match self.list_len(k) {
                    Some(m) => m,
                    None => return Err(self.syntax()),
                };
                let j = match &**other_index {
                    Expr::Int(m) => *m as usize,
                    _ => return Err(self.syntax()),
                };
                if j < src_len {
                    match self.list_copy(k) {
                        Some(l) => {
                            let x = l[j].copy();
                            self.store_element_exec(&name, i, x);
                        },
                        None => {},
                    }
                }
            },
            _ => return Err(self.syntax()),
        }
        Ok(Expr::Assignment(label, Box::new(value)))
    }

    fn parse_list(&mut self) -> (r: Result<Expr, ParseError>)
        requires
            old(self).wf(),
        ensures
            final(self).wf(),
            final(self).ctx() == old(self).ctx(),
            moved(old(self).ctx(), old(self).state(), final(self).state()),
            (result_view(r), final(self).state()) == p_list(old(self).ctx(), old(self).state()),
        decreases old(self).tokens.len() - old(self).pos, 0nat,
    {
        self.advance();
        if !self.expect_exec(Token::LBRACKET) {
            return Err(self.syntax());
        }
        if self.peek_kind() == Some(Token::RBRACKET) {
            return Err(ParseError::MissingIndex(self.here_exec()));
        }
        let size_index = self.pos;
        let size = if size_index < self.tokens.len() { list_size_exec(&self.tokens[size_index]) } else { None };
        self.advance();
        let n = match size {
            Some(n) => n,
            None => return Err(self.syntax()),
        };
        if n == 0 {
            return Err(self.syntax());
        }
        if !self.expect_exec(Token::RBRACKET) {
            return Err(self.syntax());
        }
        if self.peek_kind() != Some(Token::ASSIGN) {
            let zero = Real::from_int(0);
            return Ok(Expr::List(filled(&zero, n)));
        }
        self.advance();
        match self.peek_kind() {
            Some(t) => {
                if t == Token::INT || t == Token::REAL {
                    let e = match self.parse_expression() {
                        Ok(e) => e,
                        Err(e) => return Err(e),
                    };
                    match fill_value_exec(&e) {
                        Some(v) => Ok(Expr::List(filled(&v, n))),
                        None => Err(self.syntax()),
                    }
                } else if t == Token::VAR {
                    let e = match self.parse_expression() {
                        Ok(e) => e,
                        Err(e) => return Err(e),
                    };
                    match e {
                        Expr::Variable(name) => {
                            let k = self.find_var(&name);
                            if k >= self.variables.len() {
                                return Err(self.syntax());
                            }
                            match self.list_copy(k) {
                                Some(l) => if l.len() != n { Err(self.syntax()) } else { Ok(Expr::List(l)) },
                                None => Err(self.syntax()),
                            }
                        },
                        _ => Err(self.syntax()),
                    }
                } else if t == Token::LIST {
                    let e = match self.parse_expression() {
                        Ok(e) => e,
                        Err(e) => return Err(e),
                    };
                    match e {
                        Expr::List(l) => if l.len() != n { Err(self.syntax()) } else { Ok(Expr::List(l)) },
                        _ => Err(self.syntax()),
                    }
                } else {
                    Err(self.syntax())
                }
            },
            None => Err(self.syntax()),
        }
    }
}

fn list_size_exec(p: &(String, Token)) -> (r: Option<usize>)
    requires
        token_ok((p.0@, p.1)),
    ensures
        r == list_size((p.0@, p.1)),
{
    if p.1 != Token::INT {
        return None;
    }
    let cs = chars_of(p.0.as_str());
    if cs.len() > 0 && cs[0] == '-' {
        return None;
    }
    match int_magnitude(p.0.as_str()) {
        Some((Some(m), _)) => {
            if m <= usize::MAX as u64 {
                Some(m as usize)
            } else {
                None
            }
        },
        _ => None,
    }
}

fn filled(v: &Real, n: usize) -> (r: Vec<Real>)
    ensures
        reals_view(r@) == Seq::new(n as nat, |k: int| v@),
{
    let mut r: Vec<Real> = Vec::new();
    for i in 0..n
        invariant
            reals_view(r@) == Seq::new(i as nat, |k: int| v@),
    {
        r.push(v.copy());
        assert(reals_view(r@) == Seq::new(i as nat, |k: int| v@).push(v@));
        assert(Seq::new((i + 1) as nat, |k: int| v@) == Seq::new(i as nat, |k: int| v@).push(v@));
    }
    r
}

fn fill_value_exec(e: &Expr) -> (r: Option<Real>)
    ensures
        r matches Some(x) ==> fill_value(e@) == Some(x@),
        r is None ==> fill_value(e@) is None,
{
    proof { reveal_with_fuel(expr_view, 2); }
    match e {
        Expr::Int(n) => Some(Real::from_int(*n)),
        Expr::Float(x) => Some(x.copy()),
        Expr::UnaryOp(op, inner) => {
            let v = match &**inner {
                Expr::Int(n) => Real::from_int(*n),
                Expr::Float(x) => x.copy(),
                _ => return None,
            };
            if *op == owned("-") { Some(v.negated()) } else { Some(v) }
        },
        _ => None,
    }
}


/// The text of an expression: operations fully parenthesised, floats with one place
/// after the point, lists by their size.
pub open spec fn expr_text(e: ExprV) -> Seq<char>
    decreases e,
{
    match e {
        ExprV::Int(n) => int_text(n as int),
        ExprV::Float(r) => real_text_one_place(r),
        ExprV::Variable(name) => name,
        ExprV::BinaryOp(l, op, r) => seq!['('] + expr_text(*l) + op + expr_text(*r) + seq![')'],
        ExprV::UnaryOp(op, v) => seq!['('] + op + expr_text(*v) + seq![')'],
        ExprV::Assignment(name, v) => seq!['('] + name + seq!['='] + expr_text(*v) + seq![')'],
        ExprV::Boolean(l, op, r) => seq!['('] + expr_text(*l) + op + expr_text(*r) + seq![')'],
        ExprV::List(l) => "(list["@ + nat_text(l.len()) + "])"@,
        ExprV::ListAccess(name, i) => seq!['('] + name + "[("@ + expr_text(*i) + ")])"@,
    }
}

/// `at line L, pos C`.
pub open spec fn place_text(p: Position) -> Seq<char> {
    " at line "@ + nat_text(p.line as nat) + ", pos "@ + nat_text(p.column as nat)
}

/// The message of a parse error.
pub open spec fn error_text(e: ParseErrorV) -> Seq<char> {
    match e {
        ParseErrorV::UndefinedVariable(name, p) => "Undefined variable "@ + name + place_text(p),
        ParseErrorV::SyntaxError(p) => "SyntaxError"@ + place_text(p),
        ParseErrorV::InvalidAtom(p) => "Invalid atom"@ + place_text(p),
        ParseErrorV::IndexOutOfRange(p, i) => "IndexOutOfRange"@ + place_text(p) + ", index "@ + nat_text(i as nat),
        ParseErrorV::DivisionByZero(p) => "Division by zero"@ + place_text(p),
        ParseErrorV::MissingIndex(p) => "Missing index expression"@ + place_text(p),
        ParseErrorV::TokenizeError => "TokenizeError"@,
    }
}

fn push_place(out: &mut Vec<char>, p: Position)
    ensures
        final(out)@ == old(out)@ + place_text(p),
{
    push_str(out, " at line ");
    push_nat(out, p.line as u64);
    push_str(out, ", pos ");
    push_nat(out, p.column as u64);
}

impl Expr {
    fn push_text(&self, out: &mut Vec<char>)
        ensures
            final(out)@ == old(out)@ + expr_text(self@),
        decreases self,
    {
        match self {
            Expr::Int(n) => push_int(out, *n),
            Expr::Float(x) => x.push_text_one_place(out),
            Expr::Variable(name) => push_str(out, name.as_str()),
            Expr::BinaryOp(l, op, r) | Expr::Boolean(l, op, r) => {
                out.push('(');
                l.push_text(out);
                push_str(out, op.as_str());
                r.push_text(out);
                out.push(')');
            },
            Expr::UnaryOp(op, v) => {
                out.push('(');
                push_str(out, op.as_str());
                v.push_text(out);
                out.push(')');
            },
            Expr::Assignment(name, v) => {
                out.push('(');
                push_str(out, name.as_str());
                out.push('=');
                v.push_text(out);
                out.push(')');
            },
            Expr::List(l) => {
                push_str(out, "(list[");
                push_nat(out, l.len() as u64);
                push_str(out, "])");
            },
            Expr::ListAccess(name, i) => {
                out.push('(');
                push_str(out, name.as_str());
                push_str(out, "[(");
                i.push_text(out);
                push_str(out, ")])");
            },
        }
    }

    /// The text of this expression (see `expr_text`).
    pub fn to_string(&self) -> (r: String)
        ensures
            r@ == expr_text(self@),
    {
        let mut out: Vec<char> = Vec::new();
        self.push_text(&mut out);
        string_of(&out)
    }
}

/// The message of a parse error (see `error_text`).
pub fn error_message(err: &ParseError) -> (r: String)
    ensures
        r@ == error_text(err@),
{
    let mut out: Vec<char> = Vec::new();
    match err {
        ParseError::UndefinedVariable(name, p) => {
            push_str(&mut out, "Undefined variable ");
            push_str(&mut out, name.as_str());
            push_place(&mut out, *p);
        },
        ParseError::SyntaxError(p) => {
            push_str(&mut out, "SyntaxError");
            push_place(&mut out, *p);
        },
        ParseError::InvalidAtom(p) => {
            push_str(&mut out, "Invalid atom");
            push_place(&mut out, *p);
        },
        ParseError::IndexOutOfRange(p, i) => {
            push_str(&mut out, "IndexOutOfRange");
            push_place(&mut out, *p);
            push_str(&mut out, ", index ");
            push_nat(&mut out, *i as u64);
        },
        ParseError::DivisionByZero(p) => {
            push_str(&mut out, "Division by zero");
            push_place(&mut out, *p);
        },
        ParseError::MissingIndex(p) => {
            push_str(&mut out, "Missing index expression");
            push_place(&mut out, *p);
        },
        ParseError::TokenizeError => {
            push_str(&mut out, "TokenizeError");
        },
    }
    string_of(&out)
}


/// The non-empty runs of tokens between line breaks, from index `i` on, where `cur`
/// holds the tokens of the current run so far.
pub open spec fn runs_from(toks: Seq<(Seq<char>, Token)>, i: int, cur: Seq<(Seq<char>, Token)>)
    -> Seq<Seq<(Seq<char>, Token)>>
    decreases toks.len() - i,
{
    if i < 0 || i >= toks.len() {
        if cur.len() > 0 { seq![cur] } else { Seq::empty() }
    } else if toks[i].1 == Token::NEWLINE {
        (if cur.len() > 0 { seq![cur] } else { Seq::empty() }) + runs_from(toks, i + 1, Seq::empty())
    } else {
        runs_from(toks, i + 1, cur.push(toks[i]))
    }
}

/// Some token is one that the lexer could not read.
pub open spec fn has_err_token(t: Seq<(Seq<char>, Token)>) -> bool {
    exists|i: int| 0 <= i < t.len() && t[i].1 == Token::ERR
}

/// One line's outcome is kept unless it is an error right after another error.
pub open spec fn keep_result(acc: Seq<Result<ExprV, ParseErrorV>>, r: Result<ExprV, ParseErrorV>)
    -> Seq<Result<ExprV, ParseErrorV>> {
    if r is Err && acc.len() > 0 && acc.last() is Err { acc } else { acc.push(r) }
}

/// Parses each line in turn, starting at its first token with the running column and
/// variables carried over from the line before; returns the kept outcomes and the
/// final context and state.
pub open spec fn parse_lines(lines: Seq<Seq<(Seq<char>, Token)>>, c: PCtx, st: PState,
    acc: Seq<Result<ExprV, ParseErrorV>>) -> (Seq<Result<ExprV, ParseErrorV>>, PCtx, PState)
    decreases lines.len(),
{
    if lines.len() == 0 {
        (acc, c, st)
    } else {
        let c1 = PCtx { toks: lines[0], ..c };
        let (r, st1) = p_calculation(c1, PState { pos: 0, ..st });
        parse_lines(lines.drop_first(), c1, st1, keep_result(acc, r))
    }
}

/// The views of a sequence of outcomes.
pub open spec fn results_view(v: Seq<Result<Expr, ParseError>>) -> Seq<Result<ExprV, ParseErrorV>> {
    v.map_values(|r: Result<Expr, ParseError>| result_view(r))
}

/// The lines of tokens (split at `NEWLINE`, dropping blank `WHITESPACE`s) with the
/// column of each token: a blank takes one column, a line break starts again at 1.
pub open spec fn lines_with_columns(toks: Seq<(Seq<char>, Token)>, i: int, cur: Seq<(Seq<char>, Token)>,
    cols: Seq<usize>, column: int) -> Seq<(Seq<(Seq<char>, Token)>, Seq<usize>)>
    decreases toks.len() - i,
{
    if i < 0 || i >= toks.len() {
        if cur.len() > 0 { seq![(cur, cols)] } else { Seq::empty() }
    } else if toks[i].1 == Token::NEWLINE {
        (if cur.len() > 0 { seq![(cur, cols)] } else { Seq::empty() })
            + lines_with_columns(toks, i + 1, Seq::empty(), Seq::empty(), 1)
    } else if toks[i].1 == Token::WHITESPACE {
        lines_with_columns(toks, i + 1, cur, cols, sat(column + 1))
    } else {
        lines_with_columns(toks, i + 1, cur.push(toks[i]), cols.push(column as usize),
            sat(column + token_length(toks[i])))
    }
}

/// The text of one line's outcome.
pub open spec fn outcome_text(r: Result<ExprV, ParseErrorV>) -> Seq<char> {
    match r {
        Ok(e) => expr_text(e),
        Err(err) => error_text(err),
    }
}

/// Parses each line (numbered from `n`) from its first token at column 1, with the
/// variables carried over from the line before; returns each line's text and the final
/// context and state.
pub open spec fn render_lines(lines: Seq<(Seq<(Seq<char>, Token)>, Seq<usize>)>, n: int, c: PCtx, st: PState,
    acc: Seq<Seq<char>>) -> (Seq<Seq<char>>, PCtx, PState)
    decreases lines.len(),
{
    if lines.len() == 0 {
        (acc, c, st)
    } else {
        let c1 = PCtx { toks: lines[0].0, positions: lines[0].1, line: n as usize };
        let (r, st1) = p_calculation(c1, PState { pos: 0, col: 1, vars: st.vars });
        render_lines(lines.drop_first(), sat(n + 1), c1, st1, acc.push(outcome_text(r)))
    }
}

fn copy_token(t: &(String, Token)) -> (r: (String, Token))
    ensures
        r.0@ == t.0@,
        r.1 == t.1,
{
    (t.0.clone(), t.1)
}

impl Parser {
    /// Parses one line of tokens held in `line` and applies the keep rule.
    fn parse_run(&mut self, line: Vec<(String, Token)>, results: &mut Vec<Result<Expr, ParseError>>)
        requires
            tokens_ok(crate::scanner::pairs_view(line@)),
            pairs_ok(crate::scanner::pairs_view(line@)),
        ensures
            ({
                let c1 = PCtx { toks: crate::scanner::pairs_view(line@), ..old(self).ctx() };
                let (r, st1) = p_calculation(c1, PState { pos: 0, ..old(self).state() });
                &&& final(self).ctx() == c1
                &&& final(self).state() == st1
                &&& results_view(final(results)@) == keep_result(results_view(old(results)@), r)
            }),
    {
        self.tokens = line;
        self.pos = 0;
        let r = self.parse();
        let ghost rv = result_view(r);
        let last_is_err = results.len() > 0 && results[results.len() - 1].is_err();
        let ghost old_results = results@;
        if r.is_err() && last_is_err {
        } else {
            results.push(r);
            assert(results_view(results@) == results_view(old_results).push(rv));
        }
    }

    /// Parses the tokens line by line (lines are split at `NEWLINE`; empty lines are
    /// skipped), keeping the variables and running column from line to line; an error
    /// directly after another error is dropped (see `parse_lines`).
    pub fn parse_tokens(&mut self, tokens: Vec<(String, Token)>) -> (r: Vec<Result<Expr, ParseError>>)
        requires
            !has_err_token(crate::scanner::pairs_view(tokens@)) ==> tokens_ok(crate::scanner::pairs_view(tokens@)),
            !has_err_token(crate::scanner::pairs_view(tokens@)) ==> forall|k: int|
                0 <= k < runs_from(crate::scanner::pairs_view(tokens@), 0, Seq::empty()).len()
                ==> pairs_ok(#[trigger] runs_from(crate::scanner::pairs_view(tokens@), 0, Seq::empty())[k]),
        ensures
            has_err_token(crate::scanner::pairs_view(tokens@)) ==> {
                &&& r@.len() == 0
                &&& final(self).ctx() == old(self).ctx()
                &&& final(self).state() == old(self).state()
            },
            !has_err_token(crate::scanner::pairs_view(tokens@)) ==> ({
                let (rs, c, st) = parse_lines(runs_from(crate::scanner::pairs_view(tokens@), 0, Seq::empty()),
                    old(self).ctx(), old(self).state(), Seq::empty());
                &&& results_view(r@) == rs
                &&& final(self).ctx() == c
                &&& final(self).state() == st
            }),
    {
        let ghost toks = crate::scanner::pairs_view(tokens@);
        let mut j: usize = 0;
        while j < tokens.len()
            invariant
                toks == crate::scanner::pairs_view(tokens@),
                j <= tokens.len(),
                forall|k: int| 0 <= k < j ==> toks[k].1 != Token::ERR,
            decreases tokens.len() - j,
        {
            if tokens[j].1 == Token::ERR {
                assert(toks[j as int].1 == Token::ERR);
                return Vec::new();
            }
            j = j + 1;
        }
        assert(!has_err_token(toks));
        let ghost target = parse_lines(runs_from(toks, 0, Seq::empty()), self.ctx(), self.state(), Seq::empty());
        let mut results: Vec<Result<Expr, ParseError>> = Vec::new();
        let mut line: Vec<(String, Token)> = Vec::new();
        assert(results_view(results@) =~= Seq::<Result<ExprV, ParseErrorV>>::empty());
        assert(crate::scanner::pairs_view(line@) =~= Seq::<(Seq<char>, Token)>::empty());
        let mut i: usize = 0;
        while i < tokens.len()
            invariant
                i <= tokens.len(),
                toks == crate::scanner::pairs_view(tokens@),
                tokens_ok(toks),
                tokens_ok(crate::scanner::pairs_view(line@)),
                target == parse_lines(runs_from(toks, i as int, crate::scanner::pairs_view(line@)),
                    self.ctx(), self.state(), results_view(results@)),
                forall|k: int| 0 <= k < runs_from(toks, i as int, crate::scanner::pairs_view(line@)).len()
                    ==> pairs_ok(#[trigger] runs_from(toks, i as int, crate::scanner::pairs_view(line@))[k]),
            decreases tokens.len() - i,
        {
            let ghost cur = crate::scanner::pairs_view(line@);
            if tokens[i].1 == Token::NEWLINE {
                if line.len() > 0 {
                    let ghost rest = runs_from(toks, i + 1, Seq::empty());
                    assert((seq![cur] + rest).drop_first() == rest);
                    assert((seq![cur] + rest)[0] == cur);
                    assert forall|k: int| 0 <= k < rest.len() implies pairs_ok(#[trigger] rest[k]) by {
                        assert((seq![cur] + rest)[k + 1] == rest[k]);
                    }
                    let taken = line;
                    line = Vec::new();
                    self.parse_run(taken, &mut results);
                } else {
                    assert(Seq::<Seq<(Seq<char>, Token)>>::empty() + runs_from(toks, i + 1, Seq::empty())
                        == runs_from(toks, i + 1, Seq::empty()));
                }
                assert(crate::scanner::pairs_view(line@) =~= Seq::<(Seq<char>, Token)>::empty());
            } else {
                let t = copy_token(&tokens[i]);
                line.push(t);
                assert(crate::scanner::pairs_view(line@) == cur.push(toks[i as int]));
                assert(token_ok(toks[i as int]));
                assert forall|k: int| 0 <= k < cur.push(toks[i as int]).len()
                    implies token_ok(#[trigger] cur.push(toks[i as int])[k]) by {
                    if k < cur.len() { assert(cur.push(toks[i as int])[k] == cur[k]); }
                }
            }
            i = i + 1;
        }
        let ghost cur = crate::scanner::pairs_view(line@);
        assert(runs_from(toks, tokens.len() as int, cur)
            == if cur.len() > 0 { seq![cur] } else { Seq::<Seq<(Seq<char>, Token)>>::empty() });
        if line.len() > 0 {
            assert(seq![cur].drop_first() == Seq::<Seq<(Seq<char>, Token)>>::empty());
            assert(seq![cur][0] == cur);
            self.parse_run(line, &mut results);
        }
        assert(parse_lines(Seq::empty(), self.ctx(), self.state(), results_view(results@))
            == (results_view(results@), self.ctx(), self.state()));
        results
    }

    /// Splits the tokens into lines at `NEWLINE` (dropping empty lines), giving each
    /// token its column (see `lines_with_columns`).
    fn split_into_lines(&self, tokens: Vec<(String, Token)>) -> (r: Vec<(Vec<(String, Token)>, Vec<usize>)>)
        ensures
            lines_view(r@) == lines_with_columns(crate::scanner::pairs_view(tokens@), 0, Seq::empty(), Seq::empty(), 1),
    {
        let ghost toks = crate::scanner::pairs_view(tokens@);
        let ghost target = lines_with_columns(toks, 0, Seq::empty(), Seq::empty(), 1);
        let mut lines: Vec<(Vec<(String, Token)>, Vec<usize>)> = Vec::new();
        let mut cur: Vec<(String, Token)> = Vec::new();
        let mut cols: Vec<usize> = Vec::new();
        let mut column: usize = 1;
        assert(lines_view(lines@) =~= Seq::<(Seq<(Seq<char>, Token)>, Seq<usize>)>::empty());
        assert(crate::scanner::pairs_view(cur@) =~= Seq::<(Seq<char>, Token)>::empty());
        let mut i: usize = 0;
        while i < tokens.len()
            invariant
                i <= tokens.len(),
                toks == crate::scanner::pairs_view(tokens@),
                cols@.len() == cur@.len(),
                target == lines_view(lines@) + lines_with_columns(toks, i as int,
                    crate::scanner::pairs_view(cur@), cols@, column as int),
            decreases tokens.len() - i,
        {
            let ghost before = lines_view(lines@);
            let ghost cv = crate::scanner::pairs_view(cur@);
            let ghost colv = cols@;
            if tokens[i].1 == Token::NEWLINE {
                let ghost rest = lines_with_columns(toks, i + 1, Seq::empty(), Seq::empty(), 1);
                if cur.len() > 0 {
                    let taken = cur;
                    let taken_cols = cols;
                    cur = Vec::new();
                    cols = Vec::new();
                    lines.push((taken, taken_cols));
                    assert(lines_view(lines@) == before.push((cv, colv)));
                    assert(before + (seq![(cv, colv)] + rest) == before.push((cv, colv)) + rest);
                } else {
                    assert(before + (Seq::<(Seq<(Seq<char>, Token)>, Seq<usize>)>::empty() + rest) == before + rest);
                }
                assert(crate::scanner::pairs_view(cur@) =~= Seq::<(Seq<char>, Token)>::empty());
                assert(cols@ =~= Seq::<usize>::empty());
                column = 1;
            } else if tokens[i].1 == Token::WHITESPACE {
                column = column.saturating_add(1);
            } else {
                let n = TokenInfo::token_length(&tokens[i].0, &tokens[i].1);
                let t = copy_token(&tokens[i]);
                cols.push(column);
                cur.push(t);
                assert(crate::scanner::pairs_view(cur@) == cv.push(toks[i as int]));
                column = column.saturating_add(n);
            }
            i = i + 1;
        }
        let ghost cv = crate::scanner::pairs_view(cur@);
        let ghost colv = cols@;
        if cur.len() > 0 {
            let ghost before = lines_view(lines@);
            lines.push((cur, cols));
            assert(lines_view(lines@) == before.push((cv, colv)));
            assert(before + seq![(cv, colv)] == before.push((cv, colv)));
        } else {
            assert(lines_view(lines@) + Seq::<(Seq<(Seq<char>, Token)>, Seq<usize>)>::empty() == lines_view(lines@));
        }
        lines
    }

    /// Makes `line_tokens` (with their columns) the current line, numbered
    /// `line_number`, from its first token at column 1.
    fn setup_line_parsing(&mut self, line_tokens: Vec<(String, Token)>, positions: Vec<usize>, line_number: usize)
        ensures
            final(self).ctx() == (PCtx {
                toks: crate::scanner::pairs_view(line_tokens@), positions: positions@, line: line_number }),
            final(self).state() == (PState { pos: 0, col: 1, vars: old(self).state().vars }),
    {
        self.tokens = line_tokens;
        self.token_positions = positions;
        self.pos = 0;
        self.current_line = line_number;
        self.current_column = 1;
    }

    /// The message for a parse error (see `error_message`).
    fn format_error(&self, err: ParseError) -> (r: String)
        ensures
            r@ == error_text(err@),
    {
        error_message(&err)
    }

    /// Parses the tokens line by line (lines numbered from 1; empty lines skipped), each
    /// from column 1 with the variables carried over, and gives each line's result or
    /// error message as text.
    pub fn parse_tokens_fancy(&mut self, input: Vec<(String, Token)>) -> (r: Vec<String>)
        requires
            tokens_ok(crate::scanner::pairs_view(input@)),
            forall|k: int|
                0 <= k < lines_with_columns(crate::scanner::pairs_view(input@), 0, Seq::empty(), Seq::empty(), 1).len()
                ==> pairs_ok(#[trigger] lines_with_columns(crate::scanner::pairs_view(input@), 0, Seq::empty(), Seq::empty(), 1)[k].0),
        ensures
            ({
                let (texts, c, st) = render_lines(
                    lines_with_columns(crate::scanner::pairs_view(input@), 0, Seq::empty(), Seq::empty(), 1),
                    1, old(self).ctx(), old(self).state(), Seq::empty());
                &&& string_views(r@) == texts
                &&& final(self).ctx() == c
                &&& final(self).state() == st
            }),
    {
        let ghost toks = crate::scanner::pairs_view(input@);
        let lines = self.split_into_lines(input);
        proof { lemma_lines_ok(toks, 0, Seq::empty(), Seq::empty(), 1); }
        let ghost all = lines_view(lines@);
        let ghost target = render_lines(all, 1, self.ctx(), self.state(), Seq::empty());
        let mut output: Vec<String> = Vec::new();
        let mut current_line: usize = 1;
        assert(string_views(output@) =~= Seq::<Seq<char>>::empty());
        assert(all.skip(0) == all);
        let mut k: usize = 0;
        while k < lines.len()
            invariant
                k <= lines.len(),
                all == lines_view(lines@),
                forall|m: int| 0 <= m < all.len() ==> tokens_ok(#[trigger] all[m].0),
                forall|m: int| 0 <= m < all.len() ==> pairs_ok(#[trigger] all[m].0),
                target == render_lines(all.skip(k as int), current_line as int, self.ctx(), self.state(),
                    string_views(output@)),
            decreases lines.len() - k,
        {
            let ghost rest = all.skip(k as int);
            assert(rest[0] == all[k as int]);
            assert(rest.drop_first() == all.skip(k + 1));
            let line_tokens = copy_tokens(&lines[k].0);
            let positions = copy_usizes(&lines[k].1);
            self.setup_line_parsing(line_tokens, positions, current_line);
            let ghost before = string_views(output@);
            match self.parse() {
                Ok(expr) => {
                    let text = expr.to_string();
                    output.push(text);
                },
                Err(err) => {
                    let text = self.format_error(err);
                    output.push(text);
                },
            }
            assert(string_views(output@) == before.push(string_views(output@).last()));
            current_line = current_line.saturating_add(1);
            k = k + 1;
        }
        output
    }
}

/// The views of split lines.
pub open spec fn lines_view(v: Seq<(Vec<(String, Token)>, Vec<usize>)>) -> Seq<(Seq<(Seq<char>, Token)>, Seq<usize>)> {
    v.map_values(|l: (Vec<(String, Token)>, Vec<usize>)| (crate::scanner::pairs_view(l.0@), l.1@))
}

proof fn lemma_lines_ok(toks: Seq<(Seq<char>, Token)>, i: int, cur: Seq<(Seq<char>, Token)>, cols: Seq<usize>,
    column: int)
    requires
        tokens_ok(toks),
        tokens_ok(cur),
    ensures
        forall|m: int| 0 <= m < lines_with_columns(toks, i, cur, cols, column).len()
            ==> tokens_ok(#[trigger] lines_with_columns(toks, i, cur, cols, column)[m].0),
    decreases toks.len() - i,
{
    if i < 0 || i >= toks.len() {
        if cur.len() > 0 {
            assert(lines_with_columns(toks, i, cur, cols, column) == seq![(cur, cols)]);
            assert(seq![(cur, cols)][0].0 == cur);
        } else {
            assert(lines_with_columns(toks, i, cur, cols, column).len() == 0);
        }
    } else if toks[i].1 == Token::NEWLINE {
        lemma_lines_ok(toks, i + 1, Seq::empty(), Seq::empty(), 1);
        let head: Seq<(Seq<(Seq<char>, Token)>, Seq<usize>)> = if cur.len() > 0 { seq![(cur, cols)] } else { Seq::empty() };
        let rest = lines_with_columns(toks, i + 1, Seq::empty(), Seq::empty(), 1);
        assert(lines_with_columns(toks, i, cur, cols, column) == head + rest);
        assert forall|m: int| 0 <= m < (head + rest).len() implies tokens_ok(#[trigger] (head + rest)[m].0) by {
            if m >= head.len() {
                assert((head + rest)[m] == rest[m - head.len()]);
            } else {
                assert((head + rest)[m] == head[m]);
                assert(head[m] == (cur, cols));
            }
        }
    } else if toks[i].1 == Token::WHITESPACE {
        lemma_lines_ok(toks, i + 1, cur, cols, sat(column + 1));
        assert(lines_with_columns(toks, i, cur, cols, column) == lines_with_columns(toks, i + 1, cur, cols, sat(column + 1)));
    } else {
        assert(tokens_ok(cur.push(toks[i]))) by {
            assert forall|k: int| 0 <= k < cur.push(toks[i]).len() implies token_ok(#[trigger] cur.push(toks[i])[k]) by {
                if k < cur.len() { assert(cur.push(toks[i])[k] == cur[k]); }
            }
        }
        lemma_lines_ok(toks, i + 1, cur.push(toks[i]), cols.push(column as usize), sat(column + token_length(toks[i])));
        assert(lines_with_columns(toks, i, cur, cols, column) == lines_with_columns(toks, i + 1, cur.push(toks[i]),
            cols.push(column as usize), sat(column + token_length(toks[i]))));
    }
}

fn copy_tokens(v: &Vec<(String, Token)>) -> (r: Vec<(String, Token)>)
    ensures
        crate::scanner::pairs_view(r@) == crate::scanner::pairs_view(v@),
{
    let mut r: Vec<(String, Token)> = Vec::new();
    for i in 0..v.len()
        invariant
            crate::scanner::pairs_view(r@) == crate::scanner::pairs_view(v@).take(i as int),
    {
        let t = copy_token(&v[i]);
        r.push(t);
        assert(crate::scanner::pairs_view(v@).take(i + 1) == crate::scanner::pairs_view(v@).take(i as int).push(crate::scanner::pairs_view(v@)[i as int]));
    }
    assert(crate::scanner::pairs_view(v@).take(v.len() as int) == crate::scanner::pairs_view(v@));
    r
}

fn copy_usizes(v: &Vec<usize>) -> (r: Vec<usize>)
    ensures
        r@ == v@,
{
    let mut r: Vec<usize> = Vec::new();
    for i in 0..v.len()
        invariant
            r@ == v@.take(i as int),
    {
        r.push(v[i]);
        assert(v@.take(i + 1) == v@.take(i as int).push(v@[i as int]));
    }
    assert(v@.take(v.len() as int) == v@);
    r
}


// ---------------------------------------------------------------------------------
// Laws
// ---------------------------------------------------------------------------------

proof fn lemma_var_index_found(vs: Seq<(Seq<char>, ExprV)>, name: Seq<char>, i: int)
    requires
        0 <= i,
    ensures
        var_index_from(vs, name, i) == vs.len() || (i <= var_index_from(vs, name, i) < vs.len()
            && vs[var_index_from(vs, name, i)].0 == name),
        forall|j: int| i <= j < var_index_from(vs, name, i) && j < vs.len() ==> vs[j].0 != name,
    decreases vs.len() - i,
{
    if i < vs.len() && vs[i].0 != name {
        lemma_var_index_found(vs, name, i + 1);
    }
}

proof fn lemma_var_index_at(vs: Seq<(Seq<char>, ExprV)>, vs2: Seq<(Seq<char>, ExprV)>, name: Seq<char>, i: int, k: int)
    requires
        0 <= i <= k < vs2.len(),
        vs2[k].0 == name,
        forall|j: int| i <= j < k ==> vs2[j].0 != name,
    ensures
        var_index_from(vs2, name, i) == k,
    decreases k - i,
{
    if i < k {
        lemma_var_index_at(vs, vs2, name, i + 1, k);
    }
}

/// After an assignment, the variable holds the value assigned.
pub proof fn law_lookup_assign(vs: Seq<(Seq<char>, ExprV)>, name: Seq<char>, v: ExprV)
    ensures
        lookup(assign(vs, name, v), name) == Some(v),
{
    lemma_var_index_found(vs, name, 0);
    let k = var_index(vs, name);
    let vs2 = assign(vs, name, v);
    if 0 <= k < vs.len() {
        lemma_var_index_at(vs, vs2, name, 0, k);
    } else {
        assert forall|j: int| 0 <= j < vs.len() implies vs2[j].0 != name by {
            assert(vs2[j] == vs[j]);
        }
        lemma_var_index_at(vs, vs2, name, 0, vs.len() as int);
    }
}

/// A line that is one name reads that variable: the variable itself when it has been
/// assigned, an undefined-variable error at the name otherwise.
pub proof fn law_read_variable(c: PCtx, st: PState, x: Seq<char>)
    requires
        c.toks == seq![(x, Token::VAR)],
        st.pos == 0,
    ensures
        p_calculation(c, st).0 == (if lookup(st.vars, x) is Some {
            Ok(ExprV::Variable(x))
        } else {
            Err::<ExprV, ParseErrorV>(ParseErrorV::UndefinedVariable(x, here(c, advance(c, st))))
        }),
{
    let st1 = advance(c, st);
    assert(st1.pos == 1 && st1.vars == st.vars);
    assert(peek(c, st1) == None::<Token>);
    let r = if lookup(st.vars, x) is Some {
        Ok(ExprV::Variable(x))
    } else {
        Err::<ExprV, ParseErrorV>(ParseErrorV::UndefinedVariable(x, here(c, st1)))
    };
    assert(p_variable(c, st) == (r, st1));
    assert(p_atom(c, st) == (r, st1));
    if lookup(st.vars, x) is Some {
        let e = ExprV::Variable(x);
        assert(p_factor_rest(c, st1, e) == (r, st1));
        assert(p_factor(c, st) == (r, st1));
        assert(p_term_rest(c, st1, e) == (r, st1));
        assert(p_term(c, st) == (r, st1));
        assert(p_expression_rest(c, st1, e) == (r, st1));
        assert(p_expression(c, st) == (r, st1));
    } else {
        assert(p_factor(c, st) == (r, st1));
        assert(p_term(c, st) == (r, st1));
        assert(p_expression(c, st) == (r, st1));
    }
    assert(peek(c, st) != Some(Token::SUB));
    assert(p_boolean(c, st) == (r, st1));
}

/// Assigning a number: the line `x = n` parses to that assignment and leaves `x`
/// holding the number.
pub proof fn law_assign_number(c: PCtx, st: PState, x: Seq<char>, t: Seq<char>)
    requires
        c.toks == seq![(x, Token::VAR), ("="@, Token::ASSIGN), (t, Token::INT)],
        st.pos == 0,
    ensures
        p_calculation(c, st).0 == Ok::<ExprV, ParseErrorV>(
            ExprV::Assignment(x, Box::new(lit_expr(lit_of((t, Token::INT)))))),
        lookup(p_calculation(c, st).1.vars, x) == Some(lit_expr(lit_of((t, Token::INT)))),
{
    let v = lit_expr(lit_of((t, Token::INT)));
    let st1 = advance(c, st);
    let (ok, st2) = expect(c, st1, Token::ASSIGN);
    assert(ok && st2.pos == 2 && st2.vars == st.vars);
    let st3 = advance(c, st2);
    assert(st3.pos == 3 && st3.vars == st.vars);
    assert(kind_at(c, 3) == None::<Token>);
    assert(p_number(c, st2, lit_of(c.toks[2])) == (Ok::<ExprV, ParseErrorV>(v), st3));
    assert(p_atom(c, st2) == (Ok::<ExprV, ParseErrorV>(v), st3));
    assert(p_factor_rest(c, st3, v) == (Ok::<ExprV, ParseErrorV>(v), st3));
    assert(p_factor(c, st2) == (Ok::<ExprV, ParseErrorV>(v), st3));
    assert(p_term_rest(c, st3, v) == (Ok::<ExprV, ParseErrorV>(v), st3));
    assert(p_term(c, st2) == (Ok::<ExprV, ParseErrorV>(v), st3));
    assert(p_expression_rest(c, st3, v) == (Ok::<ExprV, ParseErrorV>(v), st3));
    assert(p_expression(c, st2) == (Ok::<ExprV, ParseErrorV>(v), st3));
    assert(!(v matches ExprV::List(_)));
    assert(p_assignment(c, st) == (Ok::<ExprV, ParseErrorV>(ExprV::Assignment(x, Box::new(v))),
        PState { vars: assign(st3.vars, x, v), ..st3 }));
    law_lookup_assign(st.vars, x, v);
}


/// No two errors stand next to each other.
pub open spec fn no_repeated_errors(rs: Seq<Result<ExprV, ParseErrorV>>) -> bool {
    forall|i: int| 0 <= i < rs.len() - 1 && (#[trigger] rs[i]) is Err ==> rs[i + 1] is Ok
}

/// Line by line parsing never reports an error right after another one: of a run of
/// lines that fail, only the first is kept.
pub proof fn law_no_repeated_errors(lines: Seq<Seq<(Seq<char>, Token)>>, c: PCtx, st: PState,
    acc: Seq<Result<ExprV, ParseErrorV>>)
    requires
        no_repeated_errors(acc),
    ensures
        no_repeated_errors(parse_lines(lines, c, st, acc).0),
    decreases lines.len(),
{
    if lines.len() > 0 {
        let c1 = PCtx { toks: lines[0], ..c };
        let (r, st1) = p_calculation(c1, PState { pos: 0, ..st });
        let acc2 = keep_result(acc, r);
        assert(no_repeated_errors(acc2)) by {
            if !(r is Err && acc.len() > 0 && acc.last() is Err) {
                assert forall|i: int| 0 <= i < acc2.len() - 1 && (#[trigger] acc2[i]) is Err implies acc2[i + 1] is Ok by {
                    if i + 1 < acc.len() {
                        assert(acc2[i] == acc[i] && acc2[i + 1] == acc[i + 1]);
                    } else {
                        assert(acc2[i] == acc.last());
                    }
                }
            }
        }
        law_no_repeated_errors(lines.drop_first(), c1, st1, acc2);
    }
}

/// Line by line parsing with messages gives one text for each line that has tokens.
pub proof fn law_one_text_per_line(lines: Seq<(Seq<(Seq<char>, Token)>, Seq<usize>)>, n: int, c: PCtx, st: PState,
    acc: Seq<Seq<char>>)
    ensures
        render_lines(lines, n, c, st, acc).0.len() == acc.len() + lines.len(),
    decreases lines.len(),
{
    if lines.len() > 0 {
        let c1 = PCtx { toks: lines[0].0, positions: lines[0].1, line: n as usize };
        let (r, st1) = p_calculation(c1, PState { pos: 0, col: 1, vars: st.vars });
        law_one_text_per_line(lines.drop_first(), sat(n + 1), c1, st1, acc.push(outcome_text(r)));
    }
}

}
