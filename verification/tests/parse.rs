use exprlang::parser::{parse, Expr, Prog, Stmt};
use exprlang::rat::Rat;
use exprlang::tokens::Token;

#[test]
fn tests_test_single_integer() {
    let ts = [Token::Num(String::from("1")), Token::NewLine];
    let res = parse(&ts);
    match res {
        Ok(Prog::Stmt(st, rest)) => match (*st, *rest) {
            (Stmt::Expr(Expr::Num(n)), Prog::End) => assert_eq!(n, Rat::from_u64(1)),
            _ => unreachable!(),
        },
        _ => unreachable!(),
    }
}
