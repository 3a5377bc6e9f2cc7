use exprlang::eval;
use exprlang::interpreter::RuntimeError;
use exprlang::parser::ParseError;
use exprlang::tokens::{tokenize, LexError, Token};
use exprlang::Error;

#[test]
fn undefined_variable_is_reported() {
    match eval("$b\n") {
        Err(Error::Runtime(RuntimeError::UndefinedVariable(name))) => {
            assert_eq!(name, "b");
        }
        _ => unreachable!(),
    }
}

#[test]
fn division_by_zero_is_reported() {
    match eval("1 / 0\n") {
        Err(Error::Runtime(RuntimeError::DivisionByZero)) => {}
        _ => unreachable!(),
    }
    match eval("1 % 0\n") {
        Err(Error::Runtime(RuntimeError::DivisionByZero)) => {}
        _ => unreachable!(),
    }
}

#[test]
fn unterminated_string_is_reported() {
    match eval("\"abc\n") {
        Err(Error::Lex(LexError::UnterminatedString)) => {}
        _ => unreachable!(),
    }
}

#[test]
fn unexpected_token_is_reported() {
    match eval("1 + +\n") {
        Err(Error::Parse(ParseError::UnexpectedToken(2))) => {}
        _ => unreachable!(),
    }
}

#[test]
fn missing_newline_is_reported() {
    match eval("1") {
        Err(Error::Parse(ParseError::UnterminatedStatement(1))) => {}
        _ => unreachable!(),
    }
}

#[test]
fn unmatched_paren_is_reported() {
    match eval("(1\n") {
        Err(Error::Parse(ParseError::UnmatchedParen(_))) => {}
        _ => unreachable!(),
    }
}

#[test]
fn huge_literal_is_reported() {
    match eval("12345678901234567890123\n") {
        Err(Error::Parse(ParseError::NumOutOfRange(0))) => {}
        _ => unreachable!(),
    }
}

#[test]
fn overflowing_product_is_reported() {
    match eval("999999999999999999 * 999999999999999999 * 999999999999999999\n") {
        Err(Error::Runtime(RuntimeError::OutOfRange)) => {}
        _ => unreachable!(),
    }
}

#[test]
fn minus_in_arithmetic_context_is_an_operator() {
    let ts = tokenize("5 - 3").unwrap();
    assert_eq!(
        ts,
        vec![
            Token::Num(String::from("5")),
            Token::Minus,
            Token::Num(String::from("3")),
        ]
    );
    assert_eq!(tokenize("-").unwrap(), vec![Token::Minus]);
}

#[test]
fn variable_tokens_drop_the_dollar() {
    let ts = tokenize("$a = 1").unwrap();
    assert_eq!(
        ts,
        vec![
            Token::Var(String::from("a")),
            Token::Equals,
            Token::Num(String::from("1")),
        ]
    );
}

#[test]
fn newline_is_its_own_token() {
    let ts = tokenize("1\n2").unwrap();
    assert_eq!(
        ts,
        vec![
            Token::Num(String::from("1")),
            Token::NewLine,
            Token::Num(String::from("2")),
        ]
    );
}

#[test]
fn nonterminating_decimal_is_truncated() {
    match eval("1 / 3\n") {
        Ok(out) => assert_eq!(out, "0.3333333333333333\n"),
        _ => unreachable!(),
    }
    match eval("2 / 3\n") {
        Ok(out) => assert_eq!(out, "0.6666666666666666\n"),
        _ => unreachable!(),
    }
}

#[test]
fn exact_decimals_print_shortest() {
    match eval("2.50\n") {
        Ok(out) => assert_eq!(out, "2.5\n"),
        _ => unreachable!(),
    }
    match eval("0.5 + 0.25\n") {
        Ok(out) => assert_eq!(out, "0.75\n"),
        _ => unreachable!(),
    }
}

#[test]
fn negative_results_format_with_sign() {
    match eval("1 - 3\n") {
        Ok(out) => assert_eq!(out, "-2\n"),
        _ => unreachable!(),
    }
}

#[test]
fn assignment_then_read_prints_assigned_value() {
    match eval("$a = 2 + 3\n$a\n") {
        Ok(out) => assert_eq!(out, "5\n"),
        _ => unreachable!(),
    }
}

#[test]
fn leading_zeros_do_not_inflate_literals() {
    match eval("0000000000000000000001.5 + 1\n") {
        Ok(out) => assert_eq!(out, "2.5\n"),
        _ => unreachable!(),
    }
}

#[test]
fn error_messages_are_readable() {
    match eval("$b\n") {
        Err(e) => assert_eq!(e.message(), "undefined variable b"),
        _ => unreachable!(),
    }
    match eval("1") {
        Err(e) => assert_eq!(e.message(), "statement not closed by a line break at 1"),
        _ => unreachable!(),
    }
    match eval("\"oops\n") {
        Err(e) => assert_eq!(e.message(), "unterminated string literal"),
        _ => unreachable!(),
    }
    match eval("1 / 0\n") {
        Err(e) => assert_eq!(e.message(), "division by zero"),
        _ => unreachable!(),
    }
}

#[test]
fn remainder_follows_the_dividend_sign() {
    match eval("(0 - 7) % 5\n") {
        Ok(out) => assert_eq!(out, "-2\n"),
        _ => unreachable!(),
    }
    match eval("7.5 % 2\n") {
        Ok(out) => assert_eq!(out, "1.5\n"),
        _ => unreachable!(),
    }
}
