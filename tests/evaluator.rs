use calculator::evaluator::{decimal_text, evaluate};
use calculator::parser::{Expr, Parser};
use calculator::tokenizer::{Symbol, Tokenizer};

fn tree(text: &str) -> Expr {
    Parser::new(text.tokenize().unwrap()).parse().unwrap()
}

#[test]
fn test_evaluate() {
    let expr = Expr::Expression(
        Box::new(Expr::Expression(Box::new(Expr::Integer(2)), Symbol::Multiply, Box::new(Expr::Integer(3)))),
        Symbol::Plus,
        Box::new(Expr::Integer(5)),
    );

    let result = evaluate(expr).unwrap();
    assert_eq!(result, 11);
}

#[test]
fn test_divide_by_zero() {
    let expr = Expr::Expression(Box::new(Expr::Integer(5)), Symbol::Divide, Box::new(Expr::Integer(0)));
    assert_eq!(evaluate(expr).is_err(), true);
}

#[test]
fn divide_by_zero_names_dividend() {
    let e = evaluate(tree("5/0")).unwrap_err();
    assert_eq!(e.message, "Divided 5 by 0");
    assert!(e.text().contains('5'));
}

#[test]
fn division_truncates() {
    assert_eq!(evaluate(tree("7/2")).unwrap(), 3);
    assert_eq!(evaluate(tree("1/3")).unwrap(), 0);
}

#[test]
fn operators_compute() {
    assert_eq!(evaluate(tree("10-4")).unwrap(), 6);
    assert_eq!(evaluate(tree("6*7")).unwrap(), 42);
    assert_eq!(evaluate(tree("1+2*3")).unwrap(), 7);
    assert_eq!(evaluate(tree("2*3*4+5")).unwrap(), 34);
}

#[test]
fn subtraction_below_zero_is_an_error() {
    let e = evaluate(tree("3-10")).unwrap_err();
    assert_eq!(e.message, "Subtracted 10 from 3 below 0");
}

#[test]
fn sum_beyond_u32_is_an_error() {
    assert_eq!(evaluate(tree("4294967295+0")).unwrap(), 4294967295);
    let e = evaluate(tree("4294967295+1")).unwrap_err();
    assert_eq!(e.message, "Added 4294967295 and 1 beyond u32");
}

#[test]
fn product_beyond_u32_is_an_error() {
    let e = evaluate(tree("65536*65536")).unwrap_err();
    assert_eq!(e.message, "Multiplied 65536 by 65536 beyond u32");
}

#[test]
fn left_error_comes_first() {
    let e = evaluate(tree("1/0+2-3")).unwrap_err();
    assert_eq!(e.message, "Divided 1 by 0");
}

#[test]
fn evaluating_twice_gives_same_result() {
    let t = tree("2*3+5");
    assert_eq!(t, tree("2*3+5"));
    let first = evaluate(t);
    let second = evaluate(tree("2*3+5"));
    assert_eq!(first, second);
    assert_eq!(first, Ok(11));
    assert_eq!(evaluate(tree("8/0")).unwrap_err(), evaluate(tree("8/0")).unwrap_err());
}

#[test]
fn decimal_writing() {
    assert_eq!(decimal_text(0), "0");
    assert_eq!(decimal_text(1234), "1234");
    assert_eq!(decimal_text(4294967295), "4294967295");
}
