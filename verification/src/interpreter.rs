//! Tree-walking interpretation of a program against a mutable variable
//! environment.
//!
//! Statements run in source order. A bare expression appends its formatted
//! value and a line break to the output; an assignment binds its variable
//! silently and prints nothing. The environment starts empty and lives for
//! one run.

use crate::parser::{Expr, ExprS, Op, Prog, ProgS, Stmt, StmtS};
use crate::rat::{rat_add, rat_div, rat_fits, rat_mul, rat_rem, rat_sub, rat_text, Rat, RatS};
use vstd::prelude::*;
use vstd::string::StringExecFns;

verus! {

/// A runtime failure at the specification level.
pub enum RuntimeErrorS {
    UndefinedVariable(Seq<char>),
    DivisionByZero,
    OutOfRange,
}

/// A runtime failure: an unbound variable read, a division or remainder by
/// zero, or an exact result too large to represent.
#[derive(Clone, Debug, PartialEq, Eq)]
pub enum RuntimeError {
    UndefinedVariable(String),
    DivisionByZero,
    OutOfRange,
}

impl View for RuntimeError {
    type V = RuntimeErrorS;

    open spec fn view(&self) -> RuntimeErrorS {
        match self {
            RuntimeError::UndefinedVariable(n) => RuntimeErrorS::UndefinedVariable(n@),
            RuntimeError::DivisionByZero => RuntimeErrorS::DivisionByZero,
            RuntimeError::OutOfRange => RuntimeErrorS::OutOfRange,
        }
    }
}

/// The result when it fits the bounded representation, else the failure.
pub open spec fn fits_or(v: RatS) -> Result<RatS, RuntimeErrorS> {
    if rat_fits(v) {
        Ok(v)
    } else {
        Err(RuntimeErrorS::OutOfRange)
    }
}

/// One operator applied to two values: exact rational arithmetic, a zero
/// right operand failing `/` and `%`.
pub open spec fn spec_apply(op: Op, a: RatS, b: RatS) -> Result<RatS, RuntimeErrorS> {
    match op {
        Op::Add => fits_or(rat_add(a, b)),
        Op::Sub => fits_or(rat_sub(a, b)),
        Op::Mul => fits_or(rat_mul(a, b)),
        Op::Div => if b.n == 0 {
            Err(RuntimeErrorS::DivisionByZero)
        } else {
            fits_or(rat_div(a, b))
        },
        Op::Rem => if b.n == 0 {
            Err(RuntimeErrorS::DivisionByZero)
        } else {
            fits_or(rat_rem(a, b))
        },
    }
}

/// The value of an expression under an environment: left side first, then
/// the right, then the operator.
pub open spec fn spec_eval(e: ExprS, env: Map<Seq<char>, RatS>) -> Result<RatS, RuntimeErrorS>
    decreases e,
{
    match e {
        ExprS::Num(r) => Ok(r),
        ExprS::Var(n) => if env.contains_key(n) {
            Ok(env[n])
        } else {
            Err(RuntimeErrorS::UndefinedVariable(n))
        },
        ExprS::BinOp(op, l, r) => match spec_eval(*l, env) {
            Err(er) => Err(er),
            Ok(a) => match spec_eval(*r, env) {
                Err(er) => Err(er),
                Ok(b) => spec_apply(op, a, b),
            },
        },
    }
}

/// Runs a program under an environment: the output text and the final
/// environment, or the first failure in source order.
pub open spec fn spec_run(p: ProgS, env: Map<Seq<char>, RatS>) -> Result<
    (Seq<char>, Map<Seq<char>, RatS>),
    RuntimeErrorS,
>
    decreases p,
{
    match p {
        ProgS::End => Ok((Seq::empty(), env)),
        ProgS::Stmt(st, rest) => match *st {
            StmtS::Expr(e) => match spec_eval(e, env) {
                Err(er) => Err(er),
                Ok(v) => match spec_run(*rest, env) {
                    Err(er) => Err(er),
                    Ok((out, env2)) => Ok((rat_text(v).push('\n') + out, env2)),
                },
            },
            StmtS::Assign(n, e) => match spec_eval(e, env) {
                Err(er) => Err(er),
                Ok(v) => spec_run(*rest, env.insert(n, v)),
            },
        },
    }
}

/// The output of a program run against an initially empty environment.
pub open spec fn spec_interpret(p: ProgS) -> Result<Seq<char>, RuntimeErrorS> {
    match spec_run(p, Map::empty()) {
        Ok((out, env)) => Ok(out),
        Err(e) => Err(e),
    }
}

/// The mapping that a binding list denotes: later bindings shadow earlier
/// ones.
pub open spec fn env_map(s: Seq<(String, Rat)>) -> Map<Seq<char>, RatS>
    decreases s.len(),
{
    if s.len() == 0 {
        Map::empty()
    } else {
        env_map(s.drop_last()).insert(s.last().0@, s.last().1@)
    }
}

/// Looks a name up, newest binding first.
fn lookup(env: &Vec<(String, Rat)>, name: &String) -> (r: Option<Rat>)
    ensures
        match r {
            Some(v) => env_map(env@).contains_key(name@) && v@ == env_map(env@)[name@],
            None => !env_map(env@).contains_key(name@),
        },
{
    proof {
        assert(env@.take(env@.len() as int) =~= env@);
    }
    let mut i = env.len();
    while i > 0
        invariant
            i <= env@.len(),
            env_map(env@).contains_key(name@) <==> env_map(env@.take(i as int)).contains_key(
                name@,
            ),
            env_map(env@).contains_key(name@) ==> env_map(env@)[name@] == env_map(
                env@.take(i as int),
            )[name@],
        decreases i,
    {
        i = i - 1;
        proof {
            assert(env@.take(i as int + 1).drop_last() =~= env@.take(i as int));
            assert(env@.take(i as int + 1).last() == env@[i as int]);
        }
        if env[i].0 == *name {
            return Some(env[i].1);
        }
    }
    proof {
        assert(env@.take(0).len() == 0);
    }
    None
}

/// Adds a binding, shadowing any earlier one of the same name.
fn env_set(env: &mut Vec<(String, Rat)>, name: String, v: Rat)
    ensures
        env_map(final (env)@) == env_map(old(env)@).insert(name@, v@),
{
    let ghost pre = env@;
    let ghost nv = name@;
    env.push((name, v));
    proof {
        assert(env@.drop_last() =~= pre);
        assert(env@.last().0@ == nv);
    }
}

/// Evaluates one expression, as [`spec_eval`] states.
fn eval_expr(e: &Expr, env: &Vec<(String, Rat)>) -> (r: Result<Rat, RuntimeError>)
    ensures
        match r {
            Ok(v) => spec_eval(e@, env_map(env@)) == Ok::<RatS, RuntimeErrorS>(v@),
            Err(er) => spec_eval(e@, env_map(env@)) == Err::<RatS, RuntimeErrorS>(er@),
        },
    decreases *e,
{
    match e {
        Expr::Num(r) => Ok(*r),
        Expr::Var(name) => match lookup(env, name) {
            Some(v) => Ok(v),
            None => Err(RuntimeError::UndefinedVariable(name.clone())),
        },
        Expr::BinOp(op, l, r) => {
            let a = match eval_expr(l, env) {
                Ok(v) => v,
                Err(er) => {
                    return Err(er);
                },
            };
            let b = match eval_expr(r, env) {
                Ok(v) => v,
                Err(er) => {
                    return Err(er);
                },
            };
            match op {
                Op::Add => match a.add(&b) {
                    Some(v) => Ok(v),
                    None => Err(RuntimeError::OutOfRange),
                },
                Op::Sub => match a.sub(&b) {
                    Some(v) => Ok(v),
                    None => Err(RuntimeError::OutOfRange),
                },
                Op::Mul => match a.mul(&b) {
                    Some(v) => Ok(v),
                    None => Err(RuntimeError::OutOfRange),
                },
                Op::Div => if b.is_zero() {
                    Err(RuntimeError::DivisionByZero)
                } else {
                    match a.div(&b) {
                        Some(v) => Ok(v),
                        None => Err(RuntimeError::OutOfRange),
                    }
                },
                Op::Rem => if b.is_zero() {
                    Err(RuntimeError::DivisionByZero)
                } else {
                    match a.rem(&b) {
                        Some(v) => Ok(v),
                        None => Err(RuntimeError::OutOfRange),
                    }
                },
            }
        },
    }
}

/// Runs a program against an environment, as [`spec_run`] states.
fn run(p: &Prog, env: Vec<(String, Rat)>) -> (r: Result<(String, Vec<(String, Rat)>), RuntimeError>)
    ensures
        match r {
            Ok(pair) => spec_run(p@, env_map(env@)) == Ok::<
                (Seq<char>, Map<Seq<char>, RatS>),
                RuntimeErrorS,
            >((pair.0@, env_map(pair.1@))),
            Err(er) => spec_run(p@, env_map(env@)) == Err::<
                (Seq<char>, Map<Seq<char>, RatS>),
                RuntimeErrorS,
            >(er@),
        },
    decreases *p,
{
    match p {
        Prog::End => Ok((String::new(), env)),
        Prog::Stmt(st, rest) => match &**st {
            Stmt::Expr(e) => {
                let v = match eval_expr(e, &env) {
                    Ok(v) => v,
                    Err(er) => {
                        return Err(er);
                    },
                };
                let (out2, env2) = match run(rest, env) {
                    Ok(pair) => pair,
                    Err(er) => {
                        return Err(er);
                    },
                };
                let mut line = v.to_text();
                line.push('\n');
                let out = line.concat(out2.as_str());
                proof {
                    assert(out@ =~= rat_text(v@).push('\n') + out2@);
                }
                Ok((out, env2))
            },
            Stmt::Assign(name, e) => {
                let v = match eval_expr(e, &env) {
                    Ok(v) => v,
                    Err(er) => {
                        return Err(er);
                    },
                };
                let mut env2 = env;
                env_set(&mut env2, name.clone(), v);
                run(rest, env2)
            },
        },
    }
}

/// Interprets a program from an empty environment, exactly as
/// [`spec_interpret`] states.
pub fn interpret(program: Prog) -> (r: Result<String, RuntimeError>)
    ensures
        match r {
            Ok(out) => spec_interpret(program@) == Ok::<Seq<char>, RuntimeErrorS>(out@),
            Err(e) => spec_interpret(program@) == Err::<Seq<char>, RuntimeErrorS>(e@),
        },
{
    let env: Vec<(String, Rat)> = Vec::new();
    proof {
        assert(env_map(env@) =~= Map::<Seq<char>, RatS>::empty());
    }
    match run(&program, env) {
        Ok((out, _)) => Ok(out),
        Err(e) => Err(e),
    }
}

} // verus!
