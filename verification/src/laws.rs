//! The laws the library keeps, each stated over the specification functions
//! that the public contracts use and proved here once and for all.

use crate::interpreter::{spec_eval, spec_interpret, spec_run, RuntimeErrorS};
use crate::parser::{
    num_shape, spec_expr, spec_expr_rest, spec_factor, spec_parse, spec_prog, spec_stmt,
    spec_term, spec_term_rest, ExprS, ProgS, StmtS,
};
use crate::tokens::{
    is_digit, is_ident, is_letter, is_space, lex_from, param_start, scan_digits, scan_run,
    spec_tokenize, TokenS,
};
use crate::rat::RatS;
use vstd::prelude::*;

verus! {

/// A printable run: no whitespace and no line break anywhere in the text.
pub open spec fn printable_run(s: Seq<char>) -> bool {
    forall|k: int| 0 <= k < s.len() ==> !is_space(s[k]) && s[k] != '\n'
}

/// A run scan started inside a printable run reaches the end of the text.
proof fn lemma_scan_run_full(s: Seq<char>, i: int)
    requires
        0 <= i <= s.len(),
        printable_run(s),
    ensures
        scan_run(s, i) == s.len(),
    decreases s.len() - i,
{
    if i < s.len() {
        lemma_scan_run_full(s, i + 1);
    }
}

/// A digit neither ends a token nor opens any earlier lexer rule.
proof fn lemma_digit_not_special(c: char)
    requires
        is_digit(c),
    ensures
        !is_space(c),
        c != '\n' && c != '"' && c != '$' && c != '+' && c != '*' && c != '%' && c != '(' && c
            != ')' && c != '=' && c != '-' && c != '/',
{
    assert(' ' as u32 == 32 && '\t' as u32 == 9 && '\r' as u32 == 13 && '\n' as u32 == 10);
    assert('"' as u32 == 34 && '$' as u32 == 36 && '+' as u32 == 43 && '*' as u32 == 42);
    assert('%' as u32 == 37 && '(' as u32 == 40 && ')' as u32 == 41 && '=' as u32 == 61);
    assert('-' as u32 == 45 && '/' as u32 == 47);
}

/// A digit scan stays between its start and the end of the text.
proof fn lemma_scan_digits_bounds(s: Seq<char>, i: int)
    requires
        0 <= i <= s.len(),
    ensures
        i <= scan_digits(s, i) <= s.len(),
    decreases s.len() - i,
{
    if i < s.len() && is_digit(s[i]) {
        lemma_scan_digits_bounds(s, i + 1);
    }
}

/// Numeric text lexes to exactly one `Num` token holding it verbatim.
pub proof fn lemma_tokenize_num(s: Seq<char>)
    requires
        num_shape(s),
    ensures
        spec_tokenize(s) == Ok::<Seq<TokenS>, crate::tokens::LexError>(seq![TokenS::Num(s)]),
{
    reveal_with_fuel(lex_from, 3);
    lemma_digit_not_special(s[0]);
    let p = scan_digits(s, 0);
    assert(scan_digits(s, 0) == scan_digits(s, 1));
    lemma_scan_digits_bounds(s, 1);
    if p == s.len() {
        assert(s.subrange(0, p) =~= s);
    } else {
        let j2 = scan_digits(s, p + 2);
        assert(s.subrange(0, j2) =~= s);
    }
    assert(seq![TokenS::Num(s)] + Seq::<TokenS>::empty() =~= seq![TokenS::Num(s)]);
}

/// Whether the text's first character opens a `Path` token under the
/// lexer's ordered rules.
pub open spec fn path_start(s: Seq<char>) -> bool {
    &&& s.len() > 0
    &&& s[0] != '"'
    &&& !is_digit(s[0])
    &&& !(s[0] == '$' && s.len() > 1 && is_ident(s[1]))
    &&& s[0] != '+'
    &&& s[0] != '*'
    &&& s[0] != '%'
    &&& s[0] != '('
    &&& s[0] != ')'
    &&& s[0] != '='
    &&& s[0] != '-'
    &&& (s[0] == '/' ==> s.len() > 1)
}

/// Path-shaped text lexes to exactly one `Path` token holding it verbatim.
/// This covers the filesystem shapes and bare words alike: any printable run
/// whose first character opens no other rule.
pub proof fn lemma_tokenize_path(s: Seq<char>)
    requires
        printable_run(s),
        path_start(s),
    ensures
        spec_tokenize(s) == Ok::<Seq<TokenS>, crate::tokens::LexError>(seq![TokenS::Path(s)]),
{
    reveal_with_fuel(lex_from, 3);
    assert(!is_space(s[0]) && s[0] != '\n');
    if s[0] == '/' {
        assert(!is_space(s[1]) && s[1] != '\n');
    }
    lemma_scan_run_full(s, 0);
    assert(s.subrange(0, s.len() as int) =~= s);
    assert(seq![TokenS::Path(s)] + Seq::<TokenS>::empty() =~= seq![TokenS::Path(s)]);
}

/// Whether the text is flag-shaped: one or two dashes, then at once a
/// letter.
pub open spec fn param_shape(s: Seq<char>) -> bool {
    &&& s.len() > 0
    &&& s[0] == '-'
    &&& (is_letter(s[1]) || (s[1] == '-' && s.len() > 2 && is_letter(s[2])))
    &&& s.len() > 1
}

/// Flag-shaped text lexes to exactly one `Param` token holding it verbatim.
pub proof fn lemma_tokenize_param(s: Seq<char>)
    requires
        printable_run(s),
        param_shape(s),
    ensures
        spec_tokenize(s) == Ok::<Seq<TokenS>, crate::tokens::LexError>(seq![TokenS::Param(s)]),
{
    reveal_with_fuel(lex_from, 3);
    assert(!is_space(s[0]) && s[0] != '\n');
    assert(param_start(s, 0));
    lemma_scan_run_full(s, 0);
    assert(s.subrange(0, s.len() as int) =~= s);
    assert(seq![TokenS::Param(s)] + Seq::<TokenS>::empty() =~= seq![TokenS::Param(s)]);
}

/// A `-` that opens no flag is the subtraction operator: a lone `-` lexes to
/// exactly one `Minus` token.
pub proof fn lemma_tokenize_minus()
    ensures
        spec_tokenize(seq!['-']) == Ok::<Seq<TokenS>, crate::tokens::LexError>(seq![TokenS::Minus]),
{
    let s = seq!['-'];
    assert(!is_space(s[0]) && s[0] != '\n');
    assert(!param_start(s, 0));
    assert(lex_from(s, 1) == Ok::<Seq<TokenS>, crate::tokens::LexError>(Seq::empty()));
    assert(seq![TokenS::Minus] + Seq::<TokenS>::empty() =~= seq![TokenS::Minus]);
}

/// Whether an expression reads any variable.
pub open spec fn expr_has_var(e: ExprS) -> bool
    decreases e,
{
    match e {
        ExprS::Num(_) => false,
        ExprS::Var(_) => true,
        ExprS::BinOp(_, l, r) => expr_has_var(*l) || expr_has_var(*r),
    }
}

/// Whether any statement of the program reads or binds a variable.
pub open spec fn prog_has_var(p: ProgS) -> bool
    decreases p,
{
    match p {
        ProgS::End => false,
        ProgS::Stmt(st, rest) => (match *st {
            StmtS::Expr(e) => expr_has_var(e),
            StmtS::Assign(_, _) => true,
        }) || prog_has_var(*rest),
    }
}

/// Evaluating a variable-free expression never reports an undefined
/// variable: only a zero divisor or a result out of range can fail it.
pub proof fn lemma_eval_no_var_no_undefined(e: ExprS, env: Map<Seq<char>, RatS>)
    requires
        !expr_has_var(e),
    ensures
        match spec_eval(e, env) {
            Ok(_) => true,
            Err(er) => er is DivisionByZero || er is OutOfRange,
        },
    decreases e,
{
    match e {
        ExprS::Num(_) => {},
        ExprS::Var(_) => {},
        ExprS::BinOp(op, l, r) => {
            lemma_eval_no_var_no_undefined(*l, env);
            lemma_eval_no_var_no_undefined(*r, env);
        },
    }
}

/// Running an all-arithmetic program never reports an undefined variable:
/// only a zero divisor or a result out of range can fail it.
pub proof fn lemma_run_no_var_no_undefined(p: ProgS, env: Map<Seq<char>, RatS>)
    requires
        !prog_has_var(p),
    ensures
        match spec_run(p, env) {
            Ok(_) => true,
            Err(er) => er is DivisionByZero || er is OutOfRange,
        },
    decreases p,
{
    match p {
        ProgS::End => {},
        ProgS::Stmt(st, rest) => match *st {
            StmtS::Expr(e) => {
                lemma_eval_no_var_no_undefined(e, env);
                lemma_run_no_var_no_undefined(*rest, env);
            },
            StmtS::Assign(_, _) => {},
        },
    }
}

/// An assignment is visible at once: after `Assign(x, e)`, a bare `Var(x)`
/// statement prints the value that `e` had at assignment time, and the rest
/// of the program runs under that binding.
pub proof fn lemma_assignment_visibility(
    x: Seq<char>,
    e: ExprS,
    rest: ProgS,
    env: Map<Seq<char>, RatS>,
)
    requires
        spec_eval(e, env) is Ok,
    ensures
        ({
            let v = spec_eval(e, env)->Ok_0;
            let whole = ProgS::Stmt(
                Box::new(StmtS::Assign(x, e)),
                Box::new(ProgS::Stmt(Box::new(StmtS::Expr(ExprS::Var(x))), Box::new(rest))),
            );
            spec_run(whole, env) == (match spec_run(rest, env.insert(x, v)) {
                Ok((out, env2)) => Ok::<(Seq<char>, Map<Seq<char>, RatS>), RuntimeErrorS>(
                    (crate::rat::rat_text(v).push('\n') + out, env2),
                ),
                Err(er) => Err::<(Seq<char>, Map<Seq<char>, RatS>), RuntimeErrorS>(er),
            })
        }),
{
    reveal_with_fuel(spec_run, 3);
    let v = spec_eval(e, env)->Ok_0;
    let env1 = env.insert(x, v);
    assert(env1.contains_key(x));
    assert(env1[x] == v);
}

/// How many line breaks the text holds.
pub open spec fn nl_count(s: Seq<char>) -> nat
    decreases s.len(),
{
    if s.len() == 0 {
        0
    } else {
        nl_count(s.drop_last()) + (if s.last() == '\n' {
            1nat
        } else {
            0nat
        })
    }
}

/// How many bare-expression statements the program holds.
pub open spec fn expr_stmt_count(p: ProgS) -> nat
    decreases p,
{
    match p {
        ProgS::End => 0,
        ProgS::Stmt(st, rest) => (match *st {
            StmtS::Expr(_) => 1nat,
            StmtS::Assign(_, _) => 0nat,
        }) + expr_stmt_count(*rest),
    }
}

/// Appending one character adds its own line-break count.
proof fn lemma_nl_push(s: Seq<char>, c: char)
    ensures
        nl_count(s.push(c)) == nl_count(s) + (if c == '\n' {
            1nat
        } else {
            0nat
        }),
{
    assert(s.push(c).drop_last() =~= s);
}

/// Line breaks add up over concatenation.
proof fn lemma_nl_concat(a: Seq<char>, b: Seq<char>)
    ensures
        nl_count(a + b) == nl_count(a) + nl_count(b),
    decreases b.len(),
{
    if b.len() == 0 {
        assert(a + b =~= a);
    } else {
        lemma_nl_concat(a, b.drop_last());
        assert((a + b).drop_last() =~= a + b.drop_last());
        assert((a + b).last() == b.last());
    }
}

/// Whole-number text holds no line break.
proof fn lemma_nl_uint(n: nat)
    ensures
        nl_count(crate::rat::uint_text(n)) == 0,
    decreases n,
{
    if n < 10 {
        assert(nl_count(seq![crate::rat::digit_char(n)].drop_last()) == 0);
    } else {
        lemma_nl_uint(n / 10);
        lemma_nl_push(crate::rat::uint_text(n / 10), crate::rat::digit_char(n % 10));
    }
}

/// Zero-padded digit text holds no line break.
proof fn lemma_nl_pad(f: nat, k: nat)
    ensures
        nl_count(crate::rat::pad_text(f, k)) == 0,
    decreases k,
{
    if k > 0 {
        lemma_nl_pad(f / 10, (k - 1) as nat);
        lemma_nl_push(crate::rat::pad_text(f / 10, (k - 1) as nat), crate::rat::digit_char(f % 10));
    }
}

/// Trimming trailing zeros adds no line break.
proof fn lemma_nl_trim(s: Seq<char>)
    requires
        nl_count(s) == 0,
    ensures
        nl_count(crate::rat::trim_zeros(s)) == 0,
    decreases s.len(),
{
    if s.len() > 0 && s.last() == '0' {
        lemma_nl_trim(s.drop_last());
    }
}

/// A rendered rational holds no line break of its own.
proof fn lemma_nl_rat_text(v: RatS)
    ensures
        nl_count(crate::rat::rat_text(v)) == 0,
{
    let sign = crate::rat::sign_text(v.n);
    assert(nl_count(sign) == 0) by {
        if v.n < 0 {
            assert(nl_count(seq!['-'].drop_last()) == 0);
        }
    }
    let m = crate::rat::mag(v.n);
    if v.d < 1 {
    } else if v.d == 1 {
        lemma_nl_uint(m);
        lemma_nl_concat(sign, crate::rat::uint_text(m));
    } else if crate::rat::pow10(16) % (v.d as nat) == 0 {
        let k = crate::rat::term_exp(v.d as nat, 0);
        let digits = m * crate::rat::pow10(k) / (v.d as nat);
        lemma_nl_uint(digits / crate::rat::pow10(k));
        lemma_nl_pad(digits % crate::rat::pow10(k), k);
        lemma_nl_concat(sign, crate::rat::uint_text(digits / crate::rat::pow10(k)));
        assert(nl_count(seq!['.'].drop_last()) == 0);
        lemma_nl_concat(
            sign + crate::rat::uint_text(digits / crate::rat::pow10(k)),
            seq!['.'],
        );
        lemma_nl_concat(
            sign + crate::rat::uint_text(digits / crate::rat::pow10(k)) + seq!['.'],
            crate::rat::pad_text(digits % crate::rat::pow10(k), k),
        );
    } else {
        let digits = m * crate::rat::pow10(16) / (v.d as nat);
        if digits == 0 {
            assert(nl_count(seq!['0'].drop_last()) == 0);
        } else {
            let q = digits / crate::rat::pow10(16);
            let f = crate::rat::trim_zeros(crate::rat::pad_text(digits % crate::rat::pow10(16), 16));
            lemma_nl_uint(q);
            lemma_nl_concat(sign, crate::rat::uint_text(q));
            if f.len() != 0 {
                lemma_nl_pad(digits % crate::rat::pow10(16), 16);
                lemma_nl_trim(crate::rat::pad_text(digits % crate::rat::pow10(16), 16));
                assert(nl_count(seq!['.'].drop_last()) == 0);
                lemma_nl_concat(sign + crate::rat::uint_text(q), seq!['.']);
                lemma_nl_concat(sign + crate::rat::uint_text(q) + seq!['.'], f);
            }
        }
    }
}

/// A token sequence with no variable token: an all-arithmetic script.
pub open spec fn no_var_tokens(ts: Seq<TokenS>) -> bool {
    forall|k: int| 0 <= k < ts.len() ==> !(#[trigger] ts[k] is Var)
}

proof fn lemma_factor_no_var(ts: Seq<TokenS>, i: int)
    requires
        no_var_tokens(ts),
    ensures
        spec_factor(ts, i) is Ok ==> !expr_has_var(spec_factor(ts, i)->Ok_0.0),
    decreases ts.len() - i, 0int,
{
    if 0 <= i < ts.len() {
        match ts[i] {
            TokenS::LParen => {
                lemma_expr_no_var(ts, crate::parser::advance(ts.len() as int, i, i + 1));
            },
            _ => {},
        }
    }
}

proof fn lemma_term_rest_no_var(ts: Seq<TokenS>, acc: ExprS, i: int)
    requires
        no_var_tokens(ts),
        !expr_has_var(acc),
    ensures
        spec_term_rest(ts, acc, i) is Ok ==> !expr_has_var(spec_term_rest(ts, acc, i)->Ok_0.0),
    decreases ts.len() - i, 1int,
{
    let len = ts.len() as int;
    if 0 <= i < ts.len() {
        let op = match ts[i] {
            TokenS::Star => Some(crate::parser::Op::Mul),
            TokenS::Slash => Some(crate::parser::Op::Div),
            TokenS::Percent => Some(crate::parser::Op::Rem),
            _ => None,
        };
        match op {
            Option::None => {},
            Option::Some(o) => {
                lemma_factor_no_var(ts, crate::parser::advance(len, i, i + 1));
                match spec_factor(ts, crate::parser::advance(len, i, i + 1)) {
                    Err(_) => {},
                    Ok((f, j)) => {
                        lemma_term_rest_no_var(
                            ts,
                            ExprS::BinOp(o, Box::new(acc), Box::new(f)),
                            crate::parser::advance(len, i + 1, j),
                        );
                    },
                }
            },
        }
    }
}

proof fn lemma_term_no_var(ts: Seq<TokenS>, i: int)
    requires
        no_var_tokens(ts),
    ensures
        spec_term(ts, i) is Ok ==> !expr_has_var(spec_term(ts, i)->Ok_0.0),
    decreases ts.len() - i, 2int,
{
    if 0 <= i < ts.len() {
        lemma_factor_no_var(ts, i);
        match spec_factor(ts, i) {
            Err(_) => {},
            Ok((f, j)) => {
                lemma_term_rest_no_var(ts, f, crate::parser::advance(ts.len() as int, i, j));
            },
        }
    }
}

proof fn lemma_expr_rest_no_var(ts: Seq<TokenS>, acc: ExprS, i: int)
    requires
        no_var_tokens(ts),
        !expr_has_var(acc),
    ensures
        spec_expr_rest(ts, acc, i) is Ok ==> !expr_has_var(spec_expr_rest(ts, acc, i)->Ok_0.0),
    decreases ts.len() - i, 3int,
{
    let len = ts.len() as int;
    if 0 <= i < ts.len() {
        let op = match ts[i] {
            TokenS::Plus => Some(crate::parser::Op::Add),
            TokenS::Minus => Some(crate::parser::Op::Sub),
            _ => None,
        };
        match op {
            Option::None => {},
            Option::Some(o) => {
                lemma_term_no_var(ts, crate::parser::advance(len, i, i + 1));
                match spec_term(ts, crate::parser::advance(len, i, i + 1)) {
                    Err(_) => {},
                    Ok((t, j)) => {
                        lemma_expr_rest_no_var(
                            ts,
                            ExprS::BinOp(o, Box::new(acc), Box::new(t)),
                            crate::parser::advance(len, i + 1, j),
                        );
                    },
                }
            },
        }
    }
}

proof fn lemma_expr_no_var(ts: Seq<TokenS>, i: int)
    requires
        no_var_tokens(ts),
    ensures
        spec_expr(ts, i) is Ok ==> !expr_has_var(spec_expr(ts, i)->Ok_0.0),
    decreases ts.len() - i, 4int,
{
    if 0 <= i < ts.len() {
        lemma_term_no_var(ts, i);
        match spec_term(ts, i) {
            Err(_) => {},
            Ok((t, j)) => {
                lemma_expr_rest_no_var(ts, t, crate::parser::advance(ts.len() as int, i, j));
            },
        }
    }
}

proof fn lemma_stmt_no_var(ts: Seq<TokenS>, i: int)
    requires
        no_var_tokens(ts),
    ensures
        spec_stmt(ts, i) is Ok ==> (spec_stmt(ts, i)->Ok_0.0 matches StmtS::Expr(e)
            && !expr_has_var(e)),
    decreases ts.len() - i, 5int,
{
    if 0 <= i < ts.len() {
        lemma_expr_no_var(ts, i);
    }
}

proof fn lemma_prog_no_var(ts: Seq<TokenS>, i: int)
    requires
        no_var_tokens(ts),
    ensures
        spec_prog(ts, i) is Ok ==> !prog_has_var(spec_prog(ts, i)->Ok_0),
    decreases ts.len() - i, 6int,
{
    if 0 <= i < ts.len() {
        lemma_stmt_no_var(ts, i);
        match spec_stmt(ts, i) {
            Err(_) => {},
            Ok((st, j)) => {
                if 0 <= j < ts.len() && ts[j] is NewLine {
                    lemma_prog_no_var(ts, crate::parser::advance(ts.len() as int, i, j + 1));
                }
            },
        }
    }
}

/// The round trip over an all-arithmetic script: when the script lexes and
/// parses, interpretation can fail only on a zero divisor or a result out of
/// range — never on a variable — and when it succeeds it prints exactly one
/// line per statement, in source order.
pub proof fn lemma_all_arithmetic_round_trip(s: Seq<char>)
    requires
        spec_tokenize(s) is Ok,
        no_var_tokens(spec_tokenize(s)->Ok_0),
        spec_parse(spec_tokenize(s)->Ok_0) is Ok,
    ensures
        ({
            let p = spec_parse(spec_tokenize(s)->Ok_0)->Ok_0;
            match spec_interpret(p) {
                Ok(out) => nl_count(out) == expr_stmt_count(p),
                Err(er) => er is DivisionByZero || er is OutOfRange,
            }
        }),
{
    let ts = spec_tokenize(s)->Ok_0;
    let p = spec_parse(ts)->Ok_0;
    lemma_prog_no_var(ts, 0);
    lemma_run_no_var_no_undefined(p, Map::empty());
    if spec_run(p, Map::empty()) is Ok {
        lemma_run_line_count(p, Map::empty());
    }
}

/// A run that succeeds prints exactly one line per bare-expression
/// statement, in source order.
pub proof fn lemma_run_line_count(p: ProgS, env: Map<Seq<char>, RatS>)
    requires
        spec_run(p, env) is Ok,
    ensures
        nl_count(spec_run(p, env)->Ok_0.0) == expr_stmt_count(p),
    decreases p,
{
    match p {
        ProgS::End => {
            assert(nl_count(Seq::<char>::empty()) == 0);
        },
        ProgS::Stmt(st, rest) => match *st {
            StmtS::Expr(e) => {
                let v = spec_eval(e, env)->Ok_0;
                lemma_run_line_count(*rest, env);
                let out = spec_run(*rest, env)->Ok_0.0;
                lemma_nl_rat_text(v);
                lemma_nl_push(crate::rat::rat_text(v), '\n');
                lemma_nl_concat(crate::rat::rat_text(v).push('\n'), out);
            },
            StmtS::Assign(n, e) => {
                let v = spec_eval(e, env)->Ok_0;
                lemma_run_line_count(*rest, env.insert(n, v));
            },
        },
    }
}

} // verus!
