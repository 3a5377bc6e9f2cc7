//! Recursive-descent parsing of a token sequence into a program.
//!
//! The grammar, lowest precedence first:
//!
//! ```text
//! Prog   := Stmt NewLine Prog | End
//! Stmt   := Var '=' Expr | Expr
//! Expr   := Term (('+' | '-') Term)*
//! Term   := Factor (('*' | '/' | '%') Factor)*
//! Factor := Num | Var | '(' Expr ')'
//! ```
//!
//! Both tails associate to the left. A `Var` token directly followed by `=`
//! opens an assignment; any other statement is a bare expression.

use crate::rat::{lemma_norm_fits, norm, pow10, Rat, RatS};
use crate::tokens::{
    digit_at, is_digit, scan_digits, scan_digits_exec, str_chars, toks_view, Token, TokenS,
};
use vstd::prelude::*;

verus! {

/// A binary arithmetic operator.
#[derive(Clone, Copy, Debug, PartialEq, Eq, Structural)]
pub enum Op {
    Add,
    Sub,
    Mul,
    Div,
    Rem,
}

/// An expression tree at the specification level.
pub enum ExprS {
    Num(RatS),
    Var(Seq<char>),
    BinOp(Op, Box<ExprS>, Box<ExprS>),
}

/// A statement at the specification level.
pub enum StmtS {
    Expr(ExprS),
    Assign(Seq<char>, ExprS),
}

/// A program at the specification level: a statement list ending in `End`.
pub enum ProgS {
    Stmt(Box<StmtS>, Box<ProgS>),
    End,
}

/// An expression tree: a number, a variable, or an operator over two
/// subtrees.
#[derive(Debug, PartialEq)]
pub enum Expr {
    Num(Rat),
    Var(String),
    BinOp(Op, Box<Expr>, Box<Expr>),
}

/// A statement: a bare expression, which prints, or an assignment, which
/// binds silently.
#[derive(Debug, PartialEq)]
pub enum Stmt {
    Expr(Expr),
    Assign(String, Expr),
}

/// A program: a right-nested statement list in source order.
#[derive(Debug, PartialEq)]
pub enum Prog {
    Stmt(Box<Stmt>, Box<Prog>),
    End,
}

pub open spec fn expr_view(e: Expr) -> ExprS
    decreases e,
{
    match e {
        Expr::Num(r) => ExprS::Num(r@),
        Expr::Var(n) => ExprS::Var(n@),
        Expr::BinOp(op, l, r) => ExprS::BinOp(op, Box::new(expr_view(*l)), Box::new(expr_view(*r))),
    }
}

impl View for Expr {
    type V = ExprS;

    open spec fn view(&self) -> ExprS {
        expr_view(*self)
    }
}

pub open spec fn stmt_view(s: Stmt) -> StmtS {
    match s {
        Stmt::Expr(e) => StmtS::Expr(expr_view(e)),
        Stmt::Assign(n, e) => StmtS::Assign(n@, expr_view(e)),
    }
}

impl View for Stmt {
    type V = StmtS;

    open spec fn view(&self) -> StmtS {
        stmt_view(*self)
    }
}

pub open spec fn prog_view(p: Prog) -> ProgS
    decreases p,
{
    match p {
        Prog::Stmt(s, rest) => ProgS::Stmt(Box::new(stmt_view(*s)), Box::new(prog_view(*rest))),
        Prog::End => ProgS::End,
    }
}

impl View for Prog {
    type V = ProgS;

    open spec fn view(&self) -> ProgS {
        prog_view(*self)
    }
}

/// A syntactic failure, with the index of the offending token.
#[derive(Clone, Copy, Debug, PartialEq, Eq)]
pub enum ParseError {
    /// A token that no grammar rule accepts at its place.
    UnexpectedToken(usize),
    /// The tokens ran out before the statement's line break.
    UnterminatedStatement(usize),
    /// A `(` whose `)` is missing.
    UnmatchedParen(usize),
    /// A numeric literal with too many significant digits to evaluate
    /// exactly.
    NumOutOfRange(usize),
}

/// The value of a decimal digit, zero for any other character.
pub open spec fn digit_val(c: char) -> nat {
    if is_digit(c) {
        (c as u32 - 48) as nat
    } else {
        0
    }
}

/// The value of the digit run `t[a..b]`.
pub open spec fn digits_val(t: Seq<char>, a: int, b: int) -> nat
    decreases b - a,
{
    if a >= b {
        0
    } else {
        digits_val(t, a, b - 1) * 10 + digit_val(t[b - 1])
    }
}

/// First position in `a..b` that holds no `'0'`.
pub open spec fn scan_zeros(t: Seq<char>, a: int, b: int) -> int
    decreases b - a,
{
    if a >= b || t[a] != '0' {
        a
    } else {
        scan_zeros(t, a + 1, b)
    }
}

/// Whether the text has the shape of a numeric literal: digits, then at most
/// one point followed by more digits.
pub open spec fn num_shape(t: Seq<char>) -> bool {
    &&& t.len() > 0
    &&& is_digit(t[0])
    &&& {
        let p = scan_digits(t, 0);
        ||| p == t.len()
        ||| (t[p] == '.' && p + 1 < t.len() && is_digit(t[p + 1]) && scan_digits(t, p + 2)
            == t.len())
    }
}

/// The digits of the literal read as one whole number, the point dropped.
pub open spec fn lit_raw(t: Seq<char>) -> nat {
    let p = scan_digits(t, 0);
    if p == t.len() {
        digits_val(t, 0, p)
    } else {
        digits_val(t, 0, p) * pow10((t.len() - p - 1) as nat) + digits_val(t, p + 1, t.len() as int)
    }
}

/// How many fractional digits the literal has.
pub open spec fn lit_frac(t: Seq<char>) -> nat {
    let p = scan_digits(t, 0);
    if p == t.len() {
        0
    } else {
        (t.len() - p - 1) as nat
    }
}

/// Whether the literal is small enough to evaluate exactly: at most 18
/// significant digits, leading zeros not counted.
pub open spec fn lit_small(t: Seq<char>) -> bool {
    let p = scan_digits(t, 0);
    let z = scan_zeros(t, 0, p);
    (p - z) + lit_frac(t) <= 18
}

/// The exact value of the literal, in lowest terms.
pub open spec fn lit_rat(t: Seq<char>) -> RatS {
    norm(lit_raw(t) as int, pow10(lit_frac(t)) as int)
}

/// Keeps a returned index inside `(i, len]` so that recursion descends; the
/// parsing functions always return such an index.
pub open spec fn advance(len: int, i: int, j: int) -> int {
    if i < j <= len {
        j
    } else if i + 1 < len {
        i + 1
    } else {
        len
    }
}

/// Parses one factor: a number, a variable, or a parenthesized expression.
pub open spec fn spec_factor(ts: Seq<TokenS>, i: int) -> Result<(ExprS, int), ParseError>
    decreases ts.len() - i, 0int,
{
    if i < 0 || i >= ts.len() {
        Err(ParseError::UnterminatedStatement(ts.len() as usize))
    } else {
        match ts[i] {
            TokenS::Num(t) => if !num_shape(t) {
                Err(ParseError::UnexpectedToken(i as usize))
            } else if !lit_small(t) {
                Err(ParseError::NumOutOfRange(i as usize))
            } else {
                Ok((ExprS::Num(lit_rat(t)), i + 1))
            },
            TokenS::Var(name) => Ok((ExprS::Var(name), i + 1)),
            TokenS::LParen => match spec_expr(ts, advance(ts.len() as int, i, i + 1)) {
                Err(e) => Err(e),
                Ok((e, j)) => if 0 <= j < ts.len() && ts[j] is RParen {
                    Ok((e, j + 1))
                } else {
                    Err(ParseError::UnmatchedParen(j as usize))
                },
            },
            _ => Err(ParseError::UnexpectedToken(i as usize)),
        }
    }
}

/// Parses the multiplicative tail after a first factor, left-associatively.
pub open spec fn spec_term_rest(ts: Seq<TokenS>, acc: ExprS, i: int) -> Result<
    (ExprS, int),
    ParseError,
>
    decreases ts.len() - i, 1int,
{
    if i < 0 || i >= ts.len() {
        Ok((acc, i))
    } else {
        let op = match ts[i] {
            TokenS::Star => Some(Op::Mul),
            TokenS::Slash => Some(Op::Div),
            TokenS::Percent => Some(Op::Rem),
            _ => None,
        };
        match op {
            Option::None => Ok((acc, i)),
            Option::Some(o) => match spec_factor(ts, advance(ts.len() as int, i, i + 1)) {
                Err(e) => Err(e),
                Ok((f, j)) => spec_term_rest(
                    ts,
                    ExprS::BinOp(o, Box::new(acc), Box::new(f)),
                    advance(ts.len() as int, i + 1, j),
                ),
            },
        }
    }
}

/// Parses one term: factors joined by `*`, `/` and `%`.
pub open spec fn spec_term(ts: Seq<TokenS>, i: int) -> Result<(ExprS, int), ParseError>
    decreases ts.len() - i, 2int,
{
    if i < 0 || i >= ts.len() {
        Err(ParseError::UnterminatedStatement(ts.len() as usize))
    } else {
        match spec_factor(ts, i) {
            Err(e) => Err(e),
            Ok((f, j)) => spec_term_rest(ts, f, advance(ts.len() as int, i, j)),
        }
    }
}

/// Parses the additive tail after a first term, left-associatively.
pub open spec fn spec_expr_rest(ts: Seq<TokenS>, acc: ExprS, i: int) -> Result<
    (ExprS, int),
    ParseError,
>
    decreases ts.len() - i, 3int,
{
    if i < 0 || i >= ts.len() {
        Ok((acc, i))
    } else {
        let op = match ts[i] {
            TokenS::Plus => Some(Op::Add),
            TokenS::Minus => Some(Op::Sub),
            _ => None,
        };
        match op {
            Option::None => Ok((acc, i)),
            Option::Some(o) => match spec_term(ts, advance(ts.len() as int, i, i + 1)) {
                Err(e) => Err(e),
                Ok((t, j)) => spec_expr_rest(
                    ts,
                    ExprS::BinOp(o, Box::new(acc), Box::new(t)),
                    advance(ts.len() as int, i + 1, j),
                ),
            },
        }
    }
}

/// Parses one expression: terms joined by `+` and `-`.
pub open spec fn spec_expr(ts: Seq<TokenS>, i: int) -> Result<(ExprS, int), ParseError>
    decreases ts.len() - i, 4int,
{
    if i < 0 || i >= ts.len() {
        Err(ParseError::UnterminatedStatement(ts.len() as usize))
    } else {
        match spec_term(ts, i) {
            Err(e) => Err(e),
            Ok((t, j)) => spec_expr_rest(ts, t, advance(ts.len() as int, i, j)),
        }
    }
}

/// Parses one statement: an assignment when a variable is directly followed
/// by `=`, else a bare expression.
pub open spec fn spec_stmt(ts: Seq<TokenS>, i: int) -> Result<(StmtS, int), ParseError>
    decreases ts.len() - i, 5int,
{
    if i < 0 || i >= ts.len() {
        Err(ParseError::UnterminatedStatement(ts.len() as usize))
    } else if i + 1 < ts.len() && ts[i] is Var && ts[i + 1] is Equals {
        match spec_expr(ts, advance(ts.len() as int, i, i + 2)) {
            Err(e) => Err(e),
            Ok((e, j)) => Ok((StmtS::Assign(ts[i]->Var_0, e), j)),
        }
    } else {
        match spec_expr(ts, i) {
            Err(e) => Err(e),
            Ok((e, j)) => Ok((StmtS::Expr(e), j)),
        }
    }
}

/// Parses a whole program: statements each closed by a line break, to the
/// end of the tokens.
pub open spec fn spec_prog(ts: Seq<TokenS>, i: int) -> Result<ProgS, ParseError>
    decreases ts.len() - i, 6int,
{
    if i < 0 || i >= ts.len() {
        Ok(ProgS::End)
    } else {
        match spec_stmt(ts, i) {
            Err(e) => Err(e),
            Ok((st, j)) => if 0 <= j < ts.len() && ts[j] is NewLine {
                match spec_prog(ts, advance(ts.len() as int, i, j + 1)) {
                    Err(e) => Err(e),
                    Ok(rest) => Ok(ProgS::Stmt(Box::new(st), Box::new(rest))),
                }
            } else if j >= ts.len() {
                Err(ParseError::UnterminatedStatement(ts.len() as usize))
            } else {
                Err(ParseError::UnexpectedToken(j as usize))
            },
        }
    }
}

/// The program of a token sequence.
pub open spec fn spec_parse(ts: Seq<TokenS>) -> Result<ProgS, ParseError> {
    spec_prog(ts, 0)
}

/// Every position a digit scan passes holds a digit.
proof fn lemma_scan_digits_all(s: Seq<char>, a: int, k: int)
    requires
        0 <= a <= k < scan_digits(s, a),
    ensures
        is_digit(s[k]),
    decreases k - a,
{
    if k > a {
        lemma_scan_digits_all(s, a + 1, k);
    }
}

/// Every position a zero scan passes holds a `'0'`.
proof fn lemma_scan_zeros_all(s: Seq<char>, a: int, b: int, k: int)
    requires
        0 <= a <= k < scan_zeros(s, a, b),
    ensures
        s[k] == '0',
    decreases k - a,
{
    if k > a {
        lemma_scan_zeros_all(s, a + 1, b, k);
    }
}

/// A run of `'0'` characters has value zero.
proof fn lemma_zeros_val(s: Seq<char>, a: int, k: int)
    requires
        a <= k,
        forall|j: int| a <= j < k ==> s[j] == '0',
    ensures
        digits_val(s, a, k) == 0,
    decreases k - a,
{
    if k > a {
        lemma_zeros_val(s, a, k - 1);
    }
}

/// Leading zeros do not change a digit run's value.
proof fn lemma_digits_prefix(s: Seq<char>, z: int, k: int)
    requires
        0 <= z <= k,
        forall|j: int| 0 <= j < z ==> s[j] == '0',
    ensures
        digits_val(s, 0, k) == digits_val(s, z, k),
    decreases k - z,
{
    if k == z {
        lemma_zeros_val(s, 0, z);
    } else {
        lemma_digits_prefix(s, z, k - 1);
    }
}

/// A run of `m` digits has value below ten to the `m`.
proof fn lemma_digits_upper(s: Seq<char>, a: int, b: int)
    requires
        a <= b,
    ensures
        digits_val(s, a, b) < pow10((b - a) as nat),
    decreases b - a,
{
    if b > a {
        lemma_digits_upper(s, a, b - 1);
    }
}

/// Reads a `Num` token's text as an exact rational.
fn lit_value(text: &String, at: usize) -> (r: Result<Rat, ParseError>)
    ensures
        match r {
            Ok(v) => num_shape(text@) && lit_small(text@) && v@ == lit_rat(text@),
            Err(e) => (!num_shape(text@) && e == ParseError::UnexpectedToken(at)) || (num_shape(
                text@,
            ) && !lit_small(text@) && e == ParseError::NumOutOfRange(at)),
        },
{
    let cs = str_chars(text.as_str());
    let n = cs.len();
    if n == 0 {
        return Err(ParseError::UnexpectedToken(at));
    }
    if !digit_at(cs[0]) {
        return Err(ParseError::UnexpectedToken(at));
    }
    let p = scan_digits_exec(&cs, 0);
    let fstart: usize;
    if p == n {
        fstart = n;
    } else {
        if cs[p] != '.' {
            return Err(ParseError::UnexpectedToken(at));
        }
        if p + 1 >= n {
            return Err(ParseError::UnexpectedToken(at));
        }
        if !digit_at(cs[p + 1]) {
            return Err(ParseError::UnexpectedToken(at));
        }
        let e = scan_digits_exec(&cs, p + 2);
        if e != n {
            return Err(ParseError::UnexpectedToken(at));
        }
        fstart = p + 1;
    }
    assert(num_shape(text@));
    let f = n - fstart;
    assert(f == lit_frac(text@));
    let mut z: usize = 0;
    while z < p && cs[z] == '0'
        invariant
            z <= p <= n == cs@.len(),
            scan_zeros(cs@, 0, p as int) == scan_zeros(cs@, z as int, p as int),
        decreases p - z,
    {
        z = z + 1;
    }
    assert(z == scan_zeros(cs@, 0, p as int));
    if (p - z) + f > 18 {
        return Err(ParseError::NumOutOfRange(at));
    }
    assert(lit_small(text@));
    let mut acc: u64 = 0;
    let mut k = z;
    while k < p
        invariant
            z <= k <= p <= n == cs@.len(),
            cs@ == text@,
            p == scan_digits(cs@, 0),
            p - z + f <= 18,
            acc == digits_val(cs@, z as int, k as int),
            acc < pow10((k - z) as nat),
        decreases p - k,
    {
        proof {
            lemma_scan_digits_all(cs@, 0, k as int);
            crate::rat::lemma_pow10_mono((k - z) as nat, 18);
            crate::rat::lemma_pow10_vals();
        }
        let d = (cs[k] as u32 - 48) as u64;
        acc = acc * 10 + d;
        k = k + 1;
    }
    proof {
        assert(forall|j: int| 0 <= j < z ==> cs@[j] == '0') by {
            assert forall|j: int| 0 <= j < z implies cs@[j] == '0' by {
                lemma_scan_zeros_all(cs@, 0, p as int, j);
            }
        }
        lemma_digits_prefix(cs@, z as int, p as int);
    }
    let ival: u64 = acc;
    let ghost iv: nat = digits_val(cs@, 0, p as int);
    assert(ival == iv);
    proof {
        assert(pow10(0) == 1);
        assert(iv * pow10(0) == iv) by (nonlinear_arith)
            requires
                pow10(0) == 1,
        ;
        assert(digits_val(cs@, fstart as int, fstart as int) == 0);
    }
    let mut kk = fstart;
    while kk < n
        invariant
            fstart <= kk <= n == cs@.len(),
            p <= n,
            fstart <= n,
            cs@ == text@,
            p == scan_digits(cs@, 0),
            p < n ==> fstart == p + 1 && is_digit(cs@[p as int + 1]) && scan_digits(
                cs@,
                p as int + 2,
            ) == n,
            p == n ==> fstart == n,
            f == n - fstart,
            z <= p,
            p - z + f <= 18,
            iv == digits_val(cs@, 0, p as int),
            iv < pow10((p - z) as nat),
            acc == iv * pow10((kk - fstart) as nat) + digits_val(cs@, fstart as int, kk as int),
            acc < pow10((p - z + kk - fstart) as nat),
        decreases n - kk,
    {
        proof {
            assert(p < n);
            assert(kk >= p + 1);
            if kk >= p + 2 {
                lemma_scan_digits_all(cs@, p as int + 2, kk as int);
            } else {
                assert(kk as int == p as int + 1);
            }
            assert(is_digit(cs@[kk as int]));
            crate::rat::lemma_pow10_mono((p - z + kk - fstart) as nat, 18);
            crate::rat::lemma_pow10_vals();
            let m = (kk - fstart) as nat;
            assert(iv * pow10(m) * 10 == iv * pow10(m + 1)) by (nonlinear_arith)
                requires
                    pow10(m + 1) == 10 * pow10(m),
            ;
        }
        let d = (cs[kk] as u32 - 48) as u64;
        acc = acc * 10 + d;
        kk = kk + 1;
    }
    proof {
        crate::rat::lemma_pow10_mono((p - z + f) as nat, 18);
        crate::rat::lemma_pow10_vals();
        assert(acc == lit_raw(text@));
    }
    let den = crate::rat::pow10_exec(f);
    proof {
        crate::rat::lemma_pow10_mono(f as nat, 18);
    }
    match Rat::from_fraction(acc, den) {
        Some(v) => Ok(v),
        None => {
            proof {
                lemma_norm_fits(acc as int, den as int);
                assert(false);
            }
            Err(ParseError::NumOutOfRange(at))
        },
    }
}

/// Parses one factor, as [`spec_factor`] states.
fn parse_factor(ts: &[Token], i: usize) -> (r: Result<(Expr, usize), ParseError>)
    requires
        i <= ts@.len(),
    ensures
        match r {
            Ok(p) => spec_factor(toks_view(ts@), i as int) == Ok::<(ExprS, int), ParseError>(
                (p.0@, p.1 as int),
            ) && i < p.1 <= ts@.len(),
            Err(e) => spec_factor(toks_view(ts@), i as int) == Err::<(ExprS, int), ParseError>(e),
        },
    decreases ts@.len() - i, 0int,
{
    let n = ts.len();
    if i >= n {
        return Err(ParseError::UnterminatedStatement(n));
    }
    assert(toks_view(ts@)[i as int] == ts@[i as int]@);
    match &ts[i] {
        Token::Num(text) => match lit_value(text, i) {
            Ok(v) => Ok((Expr::Num(v), i + 1)),
            Err(e) => Err(e),
        },
        Token::Var(name) => Ok((Expr::Var(name.clone()), i + 1)),
        Token::LParen => match parse_expr(ts, i + 1) {
            Err(e) => Err(e),
            Ok((e, j)) => {
                if j < n {
                    assert(toks_view(ts@)[j as int] == ts@[j as int]@);
                    match &ts[j] {
                        Token::RParen => Ok((e, j + 1)),
                        _ => Err(ParseError::UnmatchedParen(j)),
                    }
                } else {
                    Err(ParseError::UnmatchedParen(j))
                }
            },
        },
        _ => Err(ParseError::UnexpectedToken(i)),
    }
}

/// Parses the multiplicative tail, as [`spec_term_rest`] states.
fn parse_term_rest(ts: &[Token], acc: Expr, i: usize) -> (r: Result<(Expr, usize), ParseError>)
    requires
        i <= ts@.len(),
    ensures
        match r {
            Ok(p) => spec_term_rest(toks_view(ts@), acc@, i as int) == Ok::<
                (ExprS, int),
                ParseError,
            >((p.0@, p.1 as int)) && i <= p.1 <= ts@.len(),
            Err(e) => spec_term_rest(toks_view(ts@), acc@, i as int) == Err::<
                (ExprS, int),
                ParseError,
            >(e),
        },
    decreases ts@.len() - i, 1int,
{
    let n = ts.len();
    if i >= n {
        return Ok((acc, i));
    }
    assert(toks_view(ts@)[i as int] == ts@[i as int]@);
    let op = match &ts[i] {
        Token::Star => Some(Op::Mul),
        Token::Slash => Some(Op::Div),
        Token::Percent => Some(Op::Rem),
        _ => None,
    };
    match op {
        None => Ok((acc, i)),
        Some(o) => match parse_factor(ts, i + 1) {
            Err(e) => Err(e),
            Ok((fa, j)) => parse_term_rest(ts, Expr::BinOp(o, Box::new(acc), Box::new(fa)), j),
        },
    }
}

/// Parses one term, as [`spec_term`] states.
fn parse_term(ts: &[Token], i: usize) -> (r: Result<(Expr, usize), ParseError>)
    requires
        i <= ts@.len(),
    ensures
        match r {
            Ok(p) => spec_term(toks_view(ts@), i as int) == Ok::<(ExprS, int), ParseError>(
                (p.0@, p.1 as int),
            ) && i < p.1 <= ts@.len(),
            Err(e) => spec_term(toks_view(ts@), i as int) == Err::<(ExprS, int), ParseError>(e),
        },
    decreases ts@.len() - i, 2int,
{
    if i >= ts.len() {
        return Err(ParseError::UnterminatedStatement(ts.len()));
    }
    match parse_factor(ts, i) {
        Err(e) => Err(e),
        Ok((fa, j)) => parse_term_rest(ts, fa, j),
    }
}

/// Parses the additive tail, as [`spec_expr_rest`] states.
fn parse_expr_rest(ts: &[Token], acc: Expr, i: usize) -> (r: Result<(Expr, usize), ParseError>)
    requires
        i <= ts@.len(),
    ensures
        match r {
            Ok(p) => spec_expr_rest(toks_view(ts@), acc@, i as int) == Ok::<
                (ExprS, int),
                ParseError,
            >((p.0@, p.1 as int)) && i <= p.1 <= ts@.len(),
            Err(e) => spec_expr_rest(toks_view(ts@), acc@, i as int) == Err::<
                (ExprS, int),
                ParseError,
            >(e),
        },
    decreases ts@.len() - i, 3int,
{
    let n = ts.len();
    if i >= n {
        return Ok((acc, i));
    }
    assert(toks_view(ts@)[i as int] == ts@[i as int]@);
    let op = match &ts[i] {
        Token::Plus => Some(Op::Add),
        Token::Minus => Some(Op::Sub),
        _ => None,
    };
    match op {
        None => Ok((acc, i)),
        Some(o) => match parse_term(ts, i + 1) {
            Err(e) => Err(e),
            Ok((t, j)) => parse_expr_rest(ts, Expr::BinOp(o, Box::new(acc), Box::new(t)), j),
        },
    }
}

/// Parses one expression, as [`spec_expr`] states.
fn parse_expr(ts: &[Token], i: usize) -> (r: Result<(Expr, usize), ParseError>)
    requires
        i <= ts@.len(),
    ensures
        match r {
            Ok(p) => spec_expr(toks_view(ts@), i as int) == Ok::<(ExprS, int), ParseError>(
                (p.0@, p.1 as int),
            ) && i < p.1 <= ts@.len(),
            Err(e) => spec_expr(toks_view(ts@), i as int) == Err::<(ExprS, int), ParseError>(e),
        },
    decreases ts@.len() - i, 4int,
{
    if i >= ts.len() {
        return Err(ParseError::UnterminatedStatement(ts.len()));
    }
    match parse_term(ts, i) {
        Err(e) => Err(e),
        Ok((t, j)) => parse_expr_rest(ts, t, j),
    }
}

/// Parses one statement, as [`spec_stmt`] states.
fn parse_stmt(ts: &[Token], i: usize) -> (r: Result<(Stmt, usize), ParseError>)
    requires
        i <= ts@.len(),
    ensures
        match r {
            Ok(p) => spec_stmt(toks_view(ts@), i as int) == Ok::<(StmtS, int), ParseError>(
                (p.0@, p.1 as int),
            ) && i < p.1 <= ts@.len(),
            Err(e) => spec_stmt(toks_view(ts@), i as int) == Err::<(StmtS, int), ParseError>(e),
        },
    decreases ts@.len() - i, 5int,
{
    let n = ts.len();
    if i >= n {
        return Err(ParseError::UnterminatedStatement(n));
    }
    assert(toks_view(ts@)[i as int] == ts@[i as int]@);
    let assign_name: Option<String> = if i + 1 < n {
        assert(toks_view(ts@)[i as int + 1] == ts@[i as int + 1]@);
        match (&ts[i], &ts[i + 1]) {
            (Token::Var(name), Token::Equals) => Some(name.clone()),
            _ => None,
        }
    } else {
        None
    };
    match assign_name {
        Some(name) => match parse_expr(ts, i + 2) {
            Err(e) => Err(e),
            Ok((e, j)) => Ok((Stmt::Assign(name, e), j)),
        },
        None => match parse_expr(ts, i) {
            Err(e) => Err(e),
            Ok((e, j)) => Ok((Stmt::Expr(e), j)),
        },
    }
}

/// Parses a whole program, as [`spec_prog`] states.
fn parse_prog(ts: &[Token], i: usize) -> (r: Result<Prog, ParseError>)
    requires
        i <= ts@.len(),
    ensures
        match r {
            Ok(p) => spec_prog(toks_view(ts@), i as int) == Ok::<ProgS, ParseError>(p@),
            Err(e) => spec_prog(toks_view(ts@), i as int) == Err::<ProgS, ParseError>(e),
        },
    decreases ts@.len() - i, 6int,
{
    let n = ts.len();
    if i >= n {
        return Ok(Prog::End);
    }
    match parse_stmt(ts, i) {
        Err(e) => Err(e),
        Ok((st, j)) => {
            if j < n {
                assert(toks_view(ts@)[j as int] == ts@[j as int]@);
                match &ts[j] {
                    Token::NewLine => match parse_prog(ts, j + 1) {
                        Err(e) => Err(e),
                        Ok(rest) => Ok(Prog::Stmt(Box::new(st), Box::new(rest))),
                    },
                    _ => Err(ParseError::UnexpectedToken(j)),
                }
            } else {
                Err(ParseError::UnterminatedStatement(n))
            }
        },
    }
}

/// Parses the token sequence into a program, exactly as [`spec_parse`]
/// states.
pub fn parse(tokens: &[Token]) -> (r: Result<Prog, ParseError>)
    ensures
        match r {
            Ok(p) => spec_parse(toks_view(tokens@)) == Ok::<ProgS, ParseError>(p@),
            Err(e) => spec_parse(toks_view(tokens@)) == Err::<ProgS, ParseError>(e),
        },
{
    parse_prog(tokens, 0)
}

} // verus!
