use lispy::calc::{add, div, head, max, mi, min, mmod, mul, sub};
use lispy::token::Expr;

fn nums(v: &[u32]) -> Vec<Expr> {
    v.iter().map(|n| Expr::Number(*n)).collect()
}

fn number(r: Result<Expr, lispy::token::TokensError>) -> u32 {
    match r {
        Ok(Expr::Number(n)) => n,
        other => panic!("expected a number, got {:?}", other.map(|_| ())),
    }
}

#[test]
fn operators_on_numbers() {
    assert_eq!(number(add(&nums(&[1, 2, 3]))), 6);
    assert_eq!(number(sub(&nums(&[9, 2, 3]))), 4);
    assert_eq!(number(mul(&nums(&[2, 5]))), 10);
    assert_eq!(number(div(&nums(&[9, 2]))), 4);
    assert_eq!(number(min(&nums(&[7, 3, 5]))), 3);
    assert_eq!(number(max(&nums(&[7, 3, 5]))), 7);
    assert_eq!(number(mmod(&nums(&[9, 4]))), 1);
    assert_eq!(number(mi(&nums(&[3, 3]))), 27);
}

#[test]
fn operators_without_operands() {
    assert_eq!(number(add(&[])), 0);
    assert_eq!(number(sub(&[])), 0);
    assert_eq!(number(mul(&[])), 0);
    assert_eq!(number(min(&[])), u32::MAX);
    assert_eq!(number(max(&[])), 0);
}

#[test]
fn nested_operands_are_computed() {
    let inner = Expr::Operator("+".to_string(), nums(&[2, 3]));
    let v = vec![Expr::Number(4), inner];
    assert_eq!(number(mul(&v)), 20);
    let quoted = vec![Expr::QExpr(nums(&[1]))];
    assert!(add(&quoted).is_err());
}

#[test]
fn head_of_quoted_list() {
    let v = vec![Expr::QExpr(nums(&[8, 9]))];
    assert!(matches!(head(&v), Ok(Expr::Number(8))));
    assert!(head(&nums(&[1])).is_err());
    assert!(head(&[]).is_err());
}

#[test]
fn zero_factor_and_zero_exponent_win_over_overflow() {
    assert_eq!(number(mul(&nums(&[70000, 70000, 0]))), 0);
    assert_eq!(number(mul(&nums(&[0, 70000, 70000]))), 0);
    assert!(mul(&nums(&[70000, 70000, 1])).is_err());
    assert_eq!(number(mi(&nums(&[2, 40, 0]))), 1);
    assert_eq!(number(mi(&nums(&[2, 40, 0, 7]))), 1);
    assert!(mi(&nums(&[2, 40, 1])).is_err());
    assert_eq!(number(mi(&nums(&[0, 5]))), 0);
    assert_eq!(number(mi(&nums(&[1, 4000000000]))), 1);
}
