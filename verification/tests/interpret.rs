use exprlang::interpreter::interpret;
use exprlang::parser::{Expr, Prog, Stmt};
use exprlang::rat::Rat;

#[test]
fn interpret_single_integer() {
    let prog = Prog::Stmt(
        Box::new(Stmt::Expr(Expr::Num(Rat::from_u64(1)))),
        Box::new(Prog::End),
    );
    match interpret(prog) {
        Ok(out) => assert_eq!(out, "1\n"),
        _ => unreachable!(),
    }
}
