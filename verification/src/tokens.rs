//! Lexical analysis: raw text to an ordered token sequence.
//!
//! Classification is first-character driven. A double quote opens a string
//! literal, a digit a number, `$` before an identifier a variable. The
//! single-character operators follow, with two disambiguations: a `-` begins
//! a flag-shaped `Param` token exactly when one or two dashes are followed at
//! once by a letter, and a `/` begins a `Path` token exactly when another
//! printable character follows it at once. Every other printable run is a
//! `Path` token, which covers filesystem shapes and bare words alike.

use vstd::prelude::*;

verus! {

/// A lexical token at the specification level, its text as a character
/// sequence.
pub enum TokenS {
    Num(Seq<char>),
    Str(Seq<char>),
    Path(Seq<char>),
    Param(Seq<char>),
    Plus,
    Minus,
    Star,
    Slash,
    Percent,
    LParen,
    RParen,
    Equals,
    Var(Seq<char>),
    NewLine,
}

/// A lexical token. `Num`, `Str`, `Path` and `Param` keep their source text
/// verbatim; `Var` keeps the name after the `$`.
#[derive(Clone, Debug, PartialEq, Eq)]
pub enum Token {
    Num(String),
    Str(String),
    Path(String),
    Param(String),
    Plus,
    Minus,
    Star,
    Slash,
    Percent,
    LParen,
    RParen,
    Equals,
    Var(String),
    NewLine,
}

impl View for Token {
    type V = TokenS;

    open spec fn view(&self) -> TokenS {
        match self {
            Token::Num(t) => TokenS::Num(t@),
            Token::Str(t) => TokenS::Str(t@),
            Token::Path(t) => TokenS::Path(t@),
            Token::Param(t) => TokenS::Param(t@),
            Token::Plus => TokenS::Plus,
            Token::Minus => TokenS::Minus,
            Token::Star => TokenS::Star,
            Token::Slash => TokenS::Slash,
            Token::Percent => TokenS::Percent,
            Token::LParen => TokenS::LParen,
            Token::RParen => TokenS::RParen,
            Token::Equals => TokenS::Equals,
            Token::Var(t) => TokenS::Var(t@),
            Token::NewLine => TokenS::NewLine,
        }
    }
}

/// The views of a token sequence.
pub open spec fn toks_view(ts: Seq<Token>) -> Seq<TokenS> {
    ts.map_values(|t: Token| t@)
}

/// The one lexical failure: a string literal without its closing quote.
#[derive(Clone, Copy, Debug, PartialEq, Eq)]
pub enum LexError {
    UnterminatedString,
}

/// Horizontal whitespace; the line break is a token of its own.
pub open spec fn is_space(c: char) -> bool {
    c == ' ' || c == '\t' || c == '\r'
}

/// An ASCII decimal digit.
pub open spec fn is_digit(c: char) -> bool {
    48 <= c as u32 <= 57
}

/// An ASCII letter.
pub open spec fn is_letter(c: char) -> bool {
    (65 <= c as u32 <= 90) || (97 <= c as u32 <= 122)
}

/// A character of a variable name.
pub open spec fn is_ident(c: char) -> bool {
    is_letter(c) || is_digit(c) || c == '_'
}

fn space_at(c: char) -> (b: bool)
    ensures
        b == is_space(c),
{
    c == ' ' || c == '\t' || c == '\r'
}

pub(crate) fn digit_at(c: char) -> (b: bool)
    ensures
        b == is_digit(c),
{
    let u = c as u32;
    48 <= u && u <= 57
}

fn letter_at(c: char) -> (b: bool)
    ensures
        b == is_letter(c),
{
    let u = c as u32;
    (65 <= u && u <= 90) || (97 <= u && u <= 122)
}

fn ident_at(c: char) -> (b: bool)
    ensures
        b == is_ident(c),
{
    letter_at(c) || digit_at(c) || c == '_'
}

/// First position at or after `i` that ends a printable run.
pub open spec fn scan_run(s: Seq<char>, i: int) -> int
    decreases s.len() - i,
{
    if i < 0 || i >= s.len() {
        i
    } else if is_space(s[i]) || s[i] == '\n' {
        i
    } else {
        scan_run(s, i + 1)
    }
}

/// First position at or after `i` that holds no digit.
pub open spec fn scan_digits(s: Seq<char>, i: int) -> int
    decreases s.len() - i,
{
    if i < 0 || i >= s.len() {
        i
    } else if !is_digit(s[i]) {
        i
    } else {
        scan_digits(s, i + 1)
    }
}

/// First position at or after `i` that holds no identifier character.
pub open spec fn scan_ident(s: Seq<char>, i: int) -> int
    decreases s.len() - i,
{
    if i < 0 || i >= s.len() {
        i
    } else if !is_ident(s[i]) {
        i
    } else {
        scan_ident(s, i + 1)
    }
}

/// Position of the next double quote at or after `i`, if any.
pub open spec fn find_quote(s: Seq<char>, i: int) -> Option<int>
    decreases s.len() - i,
{
    if i < 0 || i >= s.len() {
        None
    } else if s[i] == '"' {
        Some(i)
    } else {
        find_quote(s, i + 1)
    }
}

/// Whether a `-` at `i` opens a flag-shaped token: one or two dashes
/// followed at once by a letter.
pub open spec fn param_start(s: Seq<char>, i: int) -> bool {
    i + 1 < s.len() && (is_letter(s[i + 1]) || (s[i + 1] == '-' && i + 2 < s.len() && is_letter(
        s[i + 2],
    )))
}

/// The token starting at position `i`, which holds neither whitespace nor a
/// line break, and the position just after it.
pub open spec fn next_token(s: Seq<char>, i: int) -> Result<(TokenS, int), LexError> {
    let c = s[i];
    if c == '"' {
        match find_quote(s, i + 1) {
            Option::None => Err(LexError::UnterminatedString),
            Option::Some(q) => Ok((TokenS::Str(s.subrange(i, q + 1)), q + 1)),
        }
    } else if is_digit(c) {
        let j = scan_digits(s, i + 1);
        if j < s.len() && s[j] == '.' && j + 1 < s.len() && is_digit(s[j + 1]) {
            let j2 = scan_digits(s, j + 2);
            Ok((TokenS::Num(s.subrange(i, j2)), j2))
        } else {
            Ok((TokenS::Num(s.subrange(i, j)), j))
        }
    } else if c == '$' && i + 1 < s.len() && is_ident(s[i + 1]) {
        let j = scan_ident(s, i + 1);
        Ok((TokenS::Var(s.subrange(i + 1, j)), j))
    } else if c == '+' {
        Ok((TokenS::Plus, i + 1))
    } else if c == '*' {
        Ok((TokenS::Star, i + 1))
    } else if c == '%' {
        Ok((TokenS::Percent, i + 1))
    } else if c == '(' {
        Ok((TokenS::LParen, i + 1))
    } else if c == ')' {
        Ok((TokenS::RParen, i + 1))
    } else if c == '=' {
        Ok((TokenS::Equals, i + 1))
    } else if c == '-' {
        if param_start(s, i) {
            let j = scan_run(s, i);
            Ok((TokenS::Param(s.subrange(i, j)), j))
        } else {
            Ok((TokenS::Minus, i + 1))
        }
    } else if c == '/' {
        if i + 1 < s.len() && !is_space(s[i + 1]) && s[i + 1] != '\n' {
            let j = scan_run(s, i);
            Ok((TokenS::Path(s.subrange(i, j)), j))
        } else {
            Ok((TokenS::Slash, i + 1))
        }
    } else {
        let j = scan_run(s, i);
        Ok((TokenS::Path(s.subrange(i, j)), j))
    }
}

/// The tokens of the text from position `i` on: whitespace skipped, a line
/// break its own token, everything else classified by [`next_token`].
pub open spec fn lex_from(s: Seq<char>, i: int) -> Result<Seq<TokenS>, LexError>
    decreases s.len() - i,
{
    if i < 0 || i >= s.len() {
        Ok(Seq::empty())
    } else if is_space(s[i]) {
        lex_from(s, i + 1)
    } else if s[i] == '\n' {
        match lex_from(s, i + 1) {
            Ok(rest) => Ok(seq![TokenS::NewLine] + rest),
            Err(e) => Err(e),
        }
    } else {
        match next_token(s, i) {
            Err(e) => Err(e),
            Ok((t, j)) => {
                // the scanners always advance and stay in range; the bounds
                // keep the measure falling
                let j2 = if j <= i {
                    i + 1
                } else if j > s.len() {
                    s.len() as int
                } else {
                    j
                };
                match lex_from(s, j2) {
                    Ok(rest) => Ok(seq![t] + rest),
                    Err(e) => Err(e),
                }
            },
        }
    }
}

/// The token sequence of the whole text.
pub open spec fn spec_tokenize(s: Seq<char>) -> Result<Seq<TokenS>, LexError> {
    lex_from(s, 0)
}

/// Relies on `str::chars` of std: the characters of the string, in order.
#[verifier::external_body]
pub(crate) fn str_chars(s: &str) -> (v: Vec<char>)
    ensures
        v@ == s@,
{
    s.chars().collect()
}

fn scan_run_exec(cs: &Vec<char>, start: usize) -> (j: usize)
    requires
        start <= cs@.len(),
    ensures
        j == scan_run(cs@, start as int),
        start <= j <= cs@.len(),
        start < cs@.len() && !is_space(cs@[start as int]) && cs@[start as int] != '\n' ==> j
            > start,
{
    let mut j = start;
    while j < cs.len() && !space_at(cs[j]) && cs[j] != '\n'
        invariant
            start <= j <= cs@.len(),
            scan_run(cs@, start as int) == scan_run(cs@, j as int),
        decreases cs@.len() - j,
    {
        j = j + 1;
    }
    j
}

pub(crate) fn scan_digits_exec(cs: &Vec<char>, start: usize) -> (j: usize)
    requires
        start <= cs@.len(),
    ensures
        j == scan_digits(cs@, start as int),
        start <= j <= cs@.len(),
{
    let mut j = start;
    while j < cs.len() && digit_at(cs[j])
        invariant
            start <= j <= cs@.len(),
            scan_digits(cs@, start as int) == scan_digits(cs@, j as int),
        decreases cs@.len() - j,
    {
        j = j + 1;
    }
    j
}

fn scan_ident_exec(cs: &Vec<char>, start: usize) -> (j: usize)
    requires
        start <= cs@.len(),
    ensures
        j == scan_ident(cs@, start as int),
        start <= j <= cs@.len(),
{
    let mut j = start;
    while j < cs.len() && ident_at(cs[j])
        invariant
            start <= j <= cs@.len(),
            scan_ident(cs@, start as int) == scan_ident(cs@, j as int),
        decreases cs@.len() - j,
    {
        j = j + 1;
    }
    j
}

/// The text of `cs[a..b]` as an owned string.
fn substring(cs: &Vec<char>, a: usize, b: usize) -> (s: String)
    requires
        a <= b <= cs@.len(),
    ensures
        s@ == cs@.subrange(a as int, b as int),
{
    let mut s = String::new();
    let mut k = a;
    while k < b
        invariant
            a <= k <= b <= cs@.len(),
            s@ == cs@.subrange(a as int, k as int),
        decreases b - k,
    {
        s.push(cs[k]);
        assert(s@ =~= cs@.subrange(a as int, (k + 1) as int));
        k = k + 1;
    }
    s
}

/// Scans the one token at `i` and says where the next begins.
fn scan_token(cs: &Vec<char>, i: usize) -> (r: Result<(Token, usize), LexError>)
    requires
        i < cs@.len(),
        !is_space(cs@[i as int]),
        cs@[i as int] != '\n',
    ensures
        match r {
            Ok(p) => next_token(cs@, i as int) == Ok::<(TokenS, int), LexError>(
                (p.0@, p.1 as int),
            ) && i < p.1 <= cs@.len(),
            Err(e) => next_token(cs@, i as int) == Err::<(TokenS, int), LexError>(e),
        },
{
    let n = cs.len();
    let c = cs[i];
    if c == '"' {
        let mut j = i + 1;
        while j < n && cs[j] != '"'
            invariant
                i + 1 <= j <= n == cs@.len(),
                find_quote(cs@, (i + 1) as int) == find_quote(cs@, j as int),
            decreases cs@.len() - j,
        {
            j = j + 1;
        }
        if j < n {
            let text = substring(cs, i, j + 1);
            Ok((Token::Str(text), j + 1))
        } else {
            Err(LexError::UnterminatedString)
        }
    } else if digit_at(c) {
        let j = scan_digits_exec(cs, i + 1);
        if j < n && cs[j] == '.' && j + 1 < n && digit_at(cs[j + 1]) {
            let j2 = scan_digits_exec(cs, j + 2);
            let text = substring(cs, i, j2);
            Ok((Token::Num(text), j2))
        } else {
            let text = substring(cs, i, j);
            Ok((Token::Num(text), j))
        }
    } else if c == '$' && i + 1 < n && ident_at(cs[i + 1]) {
        let j = scan_ident_exec(cs, i + 1);
        let text = substring(cs, i + 1, j);
        Ok((Token::Var(text), j))
    } else if c == '+' {
        Ok((Token::Plus, i + 1))
    } else if c == '*' {
        Ok((Token::Star, i + 1))
    } else if c == '%' {
        Ok((Token::Percent, i + 1))
    } else if c == '(' {
        Ok((Token::LParen, i + 1))
    } else if c == ')' {
        Ok((Token::RParen, i + 1))
    } else if c == '=' {
        Ok((Token::Equals, i + 1))
    } else if c == '-' {
        let two = i + 1 < n && letter_at(cs[i + 1]);
        let three = i + 1 < n && cs[i + 1] == '-' && i + 2 < n && letter_at(cs[i + 2]);
        if two || three {
            let j = scan_run_exec(cs, i);
            let text = substring(cs, i, j);
            Ok((Token::Param(text), j))
        } else {
            Ok((Token::Minus, i + 1))
        }
    } else if c == '/' {
        if i + 1 < n && !space_at(cs[i + 1]) && cs[i + 1] != '\n' {
            let j = scan_run_exec(cs, i);
            let text = substring(cs, i, j);
            Ok((Token::Path(text), j))
        } else {
            Ok((Token::Slash, i + 1))
        }
    } else {
        let j = scan_run_exec(cs, i);
        let text = substring(cs, i, j);
        Ok((Token::Path(text), j))
    }
}

/// Splits the text into its tokens, exactly as [`spec_tokenize`] states.
pub fn tokenize(source: &str) -> (r: Result<Vec<Token>, LexError>)
    ensures
        match r {
            Ok(v) => spec_tokenize(source@) == Ok::<Seq<TokenS>, LexError>(toks_view(v@)),
            Err(e) => spec_tokenize(source@) == Err::<Seq<TokenS>, LexError>(e),
        },
{
    let cs = str_chars(source);
    let mut toks: Vec<Token> = Vec::new();
    let mut i: usize = 0;
    while i < cs.len()
        invariant
            i <= cs@.len(),
            cs@ == source@,
            match lex_from(cs@, i as int) {
                Ok(rest) => lex_from(cs@, 0) == Ok::<Seq<TokenS>, LexError>(
                    toks_view(toks@) + rest,
                ),
                Err(e) => lex_from(cs@, 0) == Err::<Seq<TokenS>, LexError>(e),
            },
        decreases cs@.len() - i,
    {
        let c = cs[i];
        if space_at(c) {
            i = i + 1;
        } else if c == '\n' {
            let ghost pre = toks@;
            toks.push(Token::NewLine);
            proof {
                assert(toks_view(toks@) =~= toks_view(pre).push(TokenS::NewLine));
                if lex_from(cs@, i + 1) is Ok {
                    let rest = lex_from(cs@, i + 1)->Ok_0;
                    assert(toks_view(pre) + (seq![TokenS::NewLine] + rest) =~= toks_view(toks@)
                        + rest);
                }
            }
            i = i + 1;
        } else {
            match scan_token(&cs, i) {
                Ok((t, j)) => {
                    let ghost pre = toks@;
                    let ghost tv = t@;
                    toks.push(t);
                    proof {
                        assert(toks_view(toks@) =~= toks_view(pre).push(tv));
                        if lex_from(cs@, j as int) is Ok {
                            let rest = lex_from(cs@, j as int)->Ok_0;
                            assert(toks_view(pre) + (seq![tv] + rest) =~= toks_view(toks@) + rest);
                        }
                    }
                    i = j;
                },
                Err(e) => {
                    return Err(e);
                },
            }
        }
    }
    proof {
        assert(toks_view(toks@) + Seq::<TokenS>::empty() =~= toks_view(toks@));
    }
    Ok(toks)
}

} // verus!
