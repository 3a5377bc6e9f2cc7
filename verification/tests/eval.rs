use exprlang::eval;

fn assert_eval(input: &str, expected: &str) {
    match eval(input) {
        Ok(s) => assert_eq!(s, expected),
        _ => unreachable!(),
    }
    assert!(exprlang::assert_eval(input, expected));
}

#[test]
fn tests_test_with_padding() {
    assert_eval("  1  \n ", "1\n")
}

#[test]
fn eval_single_integer() {
    assert_eval("1\n", "1\n")
}

#[test]
fn tests_test_adding_integers() {
    assert_eval("1 + 3\n", "4\n")
}

#[test]
fn test_multiplying_integers() {
    assert_eval("2 * 3\n", "6\n")
}

#[test]
fn test_dividing_integers() {
    assert_eval("1 / 4\n", "0.25\n")
}

#[test]
fn test_parens() {
    assert_eval("(1 + 2)\n", "3\n")
}

#[test]
fn test_parens_after_integer() {
    assert_eval("1 + (2 + 3) + 4\n", "10\n")
}

#[test]
fn test_associative() {
    assert_eval("1.0 / 2\n", "0.5\n");
    assert_eval("1.0 / 2 / 2\n", "0.25\n");
    assert_eval("1.0 / 2 / 2 / 2\n", "0.125\n");
}

#[test]
fn test_addition_with_parens() {
    assert_eval("1 - (2 + 7) + 4\n", "-4\n")
}

#[test]
fn test_math_expr() {
    assert_eval("1 + 7 * (9 - 2) % 5 / 10\n", "1.4\n")
}

#[test]
fn test_multiline() {
    assert_eval("1 + 1\n2 + 2\n3 + 3\n", "2\n4\n6\n")
}

#[test]
fn test_assign_is_void() {
    assert_eval("$a = 1 + 2\n", "")
}

#[test]
fn test_vars() {
    assert_eval("$a = 1 + 1\n$a = $a + 1\n$a\n", "3\n")
}
