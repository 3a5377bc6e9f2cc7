//! A small expression-language front end: lexing, parsing and interpretation
//! of line-oriented arithmetic scripts with variables.

pub mod interpreter;
pub mod laws;
pub mod parser;
pub mod rat;
pub mod tokens;

use crate::interpreter::{interpret, spec_interpret, RuntimeError, RuntimeErrorS};
use crate::parser::{parse, spec_parse, ParseError};
use crate::tokens::{spec_tokenize, tokenize, toks_view, LexError, TokenS};
use vstd::prelude::*;
use vstd::string::StringExecFns;

verus! {

/// Relies on `String::push` of std: appends the one character to the end of
/// the string.
pub assume_specification[ String::push ](s: &mut String, c: char)
    ensures
        final (s)@ == old(s)@.push(c),
;

/// A failure of any stage at the specification level.
pub enum ErrorS {
    Lex(LexError),
    Parse(ParseError),
    Runtime(RuntimeErrorS),
}

/// A failure of any stage: lexical, syntactic, or at run time. The first
/// stage that fails ends the evaluation.
#[derive(Clone, Debug, PartialEq, Eq)]
pub enum Error {
    Lex(LexError),
    Parse(ParseError),
    Runtime(RuntimeError),
}

impl View for Error {
    type V = ErrorS;

    open spec fn view(&self) -> ErrorS {
        match self {
            Error::Lex(e) => ErrorS::Lex(*e),
            Error::Parse(e) => ErrorS::Parse(*e),
            Error::Runtime(e) => ErrorS::Runtime(e@),
        }
    }
}

/// The text of an error report.
pub open spec fn error_text(e: ErrorS) -> Seq<char> {
    match e {
        ErrorS::Lex(LexError::UnterminatedString) => "unterminated string literal"@,
        ErrorS::Parse(pe) => match pe {
            ParseError::UnexpectedToken(i) => "unexpected token at "@ + crate::rat::uint_text(
                i as nat,
            ),
            ParseError::UnterminatedStatement(i) => "statement not closed by a line break at "@
                + crate::rat::uint_text(i as nat),
            ParseError::UnmatchedParen(i) => "unmatched parenthesis at "@ + crate::rat::uint_text(
                i as nat,
            ),
            ParseError::NumOutOfRange(i) => "numeric literal too large at "@
                + crate::rat::uint_text(i as nat),
        },
        ErrorS::Runtime(re) => match re {
            RuntimeErrorS::UndefinedVariable(n) => "undefined variable "@ + n,
            RuntimeErrorS::DivisionByZero => "division by zero"@,
            RuntimeErrorS::OutOfRange => "result out of range"@,
        },
    }
}

impl Error {
    /// A human-readable report of the failure, with the offending token's
    /// index where there is one.
    pub fn message(&self) -> (s: String)
        ensures
            s@ == error_text(self@),
    {
        match self {
            Error::Lex(_) => "unterminated string literal".to_owned(),
            Error::Parse(pe) => {
                let (head, at): (&str, usize) = match pe {
                    ParseError::UnexpectedToken(i) => ("unexpected token at ", *i),
                    ParseError::UnterminatedStatement(i) => (
                        "statement not closed by a line break at ",
                        *i,
                    ),
                    ParseError::UnmatchedParen(i) => ("unmatched parenthesis at ", *i),
                    ParseError::NumOutOfRange(i) => ("numeric literal too large at ", *i),
                };
                let mut s = head.to_owned();
                crate::rat::push_uint(&mut s, at as u128);
                s
            },
            Error::Runtime(re) => match re {
                RuntimeError::UndefinedVariable(n) => {
                    let mut s = "undefined variable ".to_owned();
                    s.append(n.as_str());
                    s
                },
                RuntimeError::DivisionByZero => "division by zero".to_owned(),
                RuntimeError::OutOfRange => "result out of range".to_owned(),
            },
        }
    }
}

/// The output of a source text: tokenized, parsed, then interpreted, the
/// first failure short-circuiting the rest.
pub open spec fn spec_evaluate(s: Seq<char>) -> Result<Seq<char>, ErrorS> {
    match spec_tokenize(s) {
        Err(e) => Err(ErrorS::Lex(e)),
        Ok(ts) => match spec_parse(ts) {
            Err(e) => Err(ErrorS::Parse(e)),
            Ok(p) => match spec_interpret(p) {
                Err(e) => Err(ErrorS::Runtime(e)),
                Ok(out) => Ok(out),
            },
        },
    }
}

/// Evaluates a script: one statement per line, each closed by a line break.
/// Returns the output lines of the bare expression statements in source
/// order, exactly as [`spec_evaluate`] states.
pub fn eval(source: &str) -> (r: Result<String, Error>)
    ensures
        match r {
            Ok(out) => spec_evaluate(source@) == Ok::<Seq<char>, ErrorS>(out@),
            Err(e) => spec_evaluate(source@) == Err::<Seq<char>, ErrorS>(e@),
        },
{
    let ts = match tokenize(source) {
        Ok(v) => v,
        Err(e) => {
            return Err(Error::Lex(e));
        },
    };
    let prog = match parse(ts.as_slice()) {
        Ok(p) => p,
        Err(e) => {
            return Err(Error::Parse(e));
        },
    };
    match interpret(prog) {
        Ok(out) => Ok(out),
        Err(e) => Err(Error::Runtime(e)),
    }
}

/// Whether the whole text lexes to exactly one `Path` token holding it
/// verbatim.
pub fn test_path(s: &str) -> (b: bool)
    ensures
        b == (spec_tokenize(s@) == Ok::<Seq<TokenS>, LexError>(seq![TokenS::Path(s@)])),
{
    match tokenize(s) {
        Ok(ts) => {
            if ts.len() != 1 {
                proof {
                    assert(toks_view(ts@).len() == 1 ==> ts@.len() == 1);
                }
                return false;
            }
            match &ts[0] {
                crate::tokens::Token::Path(t) => {
                    let owned = s.to_owned();
                    let hit = *t == owned;
                    proof {
                        assert(toks_view(ts@)[0] == ts@[0]@);
                        if hit {
                            assert(toks_view(ts@) =~= seq![TokenS::Path(s@)]);
                        }
                    }
                    hit
                },
                _ => {
                    proof {
                        assert(toks_view(ts@)[0] == ts@[0]@);
                    }
                    false
                },
            }
        },
        Err(_) => false,
    }
}

/// Whether the script evaluates without failure to exactly the expected
/// text.
pub fn assert_eval(input: &str, expected: &str) -> (b: bool)
    ensures
        b == (spec_evaluate(input@) == Ok::<Seq<char>, ErrorS>(expected@)),
{
    match eval(input) {
        Ok(out) => {
            let want = expected.to_owned();
            out == want
        },
        Err(_) => false,
    }
}

} // verus!
