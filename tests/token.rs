use lispy::token::{Expr, Tokens, TokensError};

fn value_of(text: &str) -> Result<u32, TokensError> {
    let mut tokens = Tokens::new(text.to_string())?;
    let expr = tokens.parser()?;
    expr.math_result()
}

#[test]
fn token_test() {
    let mut tokens = Tokens::new("% 2 2".to_string()).unwrap();
    println!("{:?}", tokens);
    let expr = tokens.parser().unwrap();
    println!("{:?}", expr);
    let v = expr.math_result().unwrap();
    assert_eq!(0, v);
    println!("{:?}", v);
}

#[test]
fn simple() {
    let mut tokens = Tokens::new("+ 1 2".to_string()).unwrap();
    println!("{:?}", tokens);
    let expr = tokens.parser().unwrap();
    println!("{:?}", expr);
    let v = expr.math_result().unwrap();
    assert_eq!(3, v);
    println!("{:?}", v);
}

#[test]
fn bracket() {
    let mut tokens = Tokens::new("(+ 1 2)".to_string()).unwrap();
    println!("{:?}", tokens);
    let expr = tokens.parser().unwrap();
    println!("{:?}", expr);
    let v = expr.math_result().unwrap();
    assert_eq!(3, v);
    println!("{:?}", v);
}

#[test]
fn long_number() {
    let mut tokens = Tokens::new("+ 12 2 2".to_string()).unwrap();
    println!("{:?}", tokens);
    let expr = tokens.parser().unwrap();
    println!("{:?}", expr);
    let v = expr.math_result().unwrap();
    assert_eq!(16, v);
    println!("{:?}", v);
}

#[test]
fn operator_test() {
    let mut tokens = Tokens::new("^ (% 8 3) 2".to_string()).unwrap();
    println!("tokens: {:?}", tokens);
    let expr = tokens.parser().unwrap();
    println!("expr: {:?}", expr);
    let v = expr.math_result().unwrap();
    assert_eq!(4, v);
    println!("{:?}", v);
}

#[test]
fn long_expression() {
    let mut tokens = Tokens::new("+ (% 18 2) (+ 5 2)".to_string()).unwrap();
    println!("tokens: {:?}", tokens);
    let expr = tokens.parser().unwrap();
    println!("expr: {:?}", expr);
    let v = expr.math_result().unwrap();
    assert_eq!(7, v);
    println!("{:?}", v);
}

#[test]
fn long_expression2() {
    let mut tokens = Tokens::new("* 22 4 (+ 0 0 0)".to_string()).unwrap();
    println!("tokens: {:?}", tokens);
    let expr = tokens.parser().unwrap();
    println!("expr: {:?}", expr);
    let v = expr.math_result().unwrap();
    assert_eq!(0, v);
    println!("{:?}", v);
}

#[test]
fn str_expr() {
    let mut tokens = Tokens::new("max 1 2 3".to_string()).unwrap();
    println!("tokens: {:?}", tokens);
    let expr = tokens.parser().unwrap();
    println!("expr: {:?}", expr);
    let v = expr.math_result().unwrap();
    assert_eq!(3, v);
    println!("{:?}", v);
}

#[test]
fn qexpr() {
    let mut tokens = Tokens::new("{1 2 3 {1 2 3}}".to_string()).unwrap();
    println!("tokens: {:?}", tokens);
    let expr = tokens.parser().unwrap();
    println!("expr: {:?}", expr);
    let v = expr.calc().unwrap();
    println!("{:?}", v);
    match v {
        Expr::QExpr(items) => {
            assert_eq!(items.len(), 4);
            assert!(matches!(&items[3], Expr::QExpr(inner) if inner.len() == 3));
        }
        _ => panic!("a quoted list stays a quoted list"),
    }
}

#[test]
fn qexpr2() {
    let mut tokens = Tokens::new("head { (1)2 { 3 4 }}".to_string()).unwrap();
    println!("tokens: {:?}", tokens);
    let expr = tokens.parser().unwrap();
    println!("expr: {:?}", expr);
    let v = expr.calc().unwrap();
    println!("{:?}", v);
    assert!(matches!(v, Expr::Number(1)));
}

#[test]
fn each_operator_folds_from_the_first_operand() {
    assert_eq!(value_of("- 10 3 2").unwrap(), 5);
    assert_eq!(value_of("* 2 3 4").unwrap(), 24);
    assert_eq!(value_of("/ 20 2 5").unwrap(), 2);
    assert_eq!(value_of("min 4 2 8").unwrap(), 2);
    assert_eq!(value_of("max 4 9 8").unwrap(), 9);
    assert_eq!(value_of("% 17 10 4").unwrap(), 3);
    assert_eq!(value_of("^ 2 10").unwrap(), 1024);
    assert_eq!(value_of("^ 0 0").unwrap(), 1);
    assert_eq!(value_of("+").unwrap(), 0);
    assert_eq!(value_of("min").unwrap(), u32::MAX);
}

#[test]
fn arithmetic_failures() {
    assert!(matches!(value_of("- 1 2"), Err(TokensError::Invalid)));
    assert!(matches!(value_of("/ 4 0"), Err(TokensError::Invalid)));
    assert!(matches!(value_of("% 4 0"), Err(TokensError::Invalid)));
    assert!(matches!(value_of("^ 2 32"), Err(TokensError::Invalid)));
    assert!(matches!(value_of("+ 4294967295 1"), Err(TokensError::Invalid)));
    assert!(matches!(value_of("+ 4294967296"), Err(TokensError::Invalid)));
    assert!(matches!(value_of("foo 1 2"), Err(TokensError::Invalid)));
    assert!(matches!(value_of("{1 2}"), Err(TokensError::Invalid)));
    assert_eq!(value_of("^ 2 31").unwrap(), 2147483648);
    assert_eq!(value_of("+ 4294967294 1").unwrap(), u32::MAX);
}

#[test]
fn reading_failures() {
    assert!(matches!(Tokens::new("+ 1 #".to_string()), Err(TokensError::Invalid)));
    assert!(matches!(value_of("+ 1 +"), Err(TokensError::InvalidExpression { .. })));
    assert!(matches!(value_of(""), Err(TokensError::Invalid)));
    assert!(matches!(value_of(")"), Err(TokensError::Invalid)));
}

#[test]
fn head_takes_the_first_element_as_it_stands() {
    assert_eq!(value_of("head {5 6}").unwrap(), 5);
    let mut tokens = Tokens::new("head {(+ 1 2) 3}".to_string()).unwrap();
    let expr = tokens.parser().unwrap();
    let v = expr.calc().unwrap();
    assert!(matches!(&v, Expr::Operator(op, args) if op == "+" && args.len() == 2));
    assert_eq!(v.math_result().unwrap(), 3);
    assert!(matches!(value_of("head {}"), Err(TokensError::Invalid)));
}

#[test]
fn tokens_are_read_one_by_one() {
    let mut tokens = Tokens::new("max 12 (3)".to_string()).unwrap();
    assert!(matches!(tokens.peek(), lispy::token::Token::Operator(s) if s == "max"));
    assert!(matches!(tokens.next(), lispy::token::Token::Operator(s) if s == "max"));
    assert!(matches!(tokens.next(), lispy::token::Token::Number(s) if s == "12"));
    assert!(matches!(tokens.next(), lispy::token::Token::LeftBracket));
    assert!(matches!(tokens.next(), lispy::token::Token::Number(s) if s == "3"));
    assert!(matches!(tokens.next(), lispy::token::Token::RightBracket));
    assert!(matches!(tokens.next(), lispy::token::Token::Eof));
    assert!(matches!(tokens.peek(), lispy::token::Token::Eof));
}

#[test]
fn runs_of_digits_and_letters() {
    let mut pos: usize = 0;
    assert_eq!(Tokens::parser_number_string("123+4", &mut pos), "123");
    assert_eq!(pos, 3);
    let mut pos: usize = 1;
    assert_eq!(Tokens::str_parser(" max 1", &mut pos), "max");
    assert_eq!(pos, 4);
}

#[test]
fn texts_of_expressions_and_tokens() {
    let mut tokens = Tokens::new("+ 12 (max 3 40) {7 {}}".to_string()).unwrap();
    let expr = tokens.parser().unwrap();
    assert_eq!(expr.to_text(), "+ 12 max 3 40 { 7 { } }");
    assert_eq!(Expr::Number(0).to_text(), "0");
    assert_eq!(Expr::Number(4294967295).to_text(), "4294967295");
    assert_eq!(lispy::token::Token::LeftBraces.to_text(), "{");
    assert_eq!(lispy::token::Token::Eof.to_text(), "");
    assert_eq!(lispy::token::Token::Number("42".to_string()).to_text(), "42");
}

#[test]
fn runs_at_the_end_read_nothing() {
    let mut pos: usize = 3;
    assert_eq!(Tokens::parser_number_string("123", &mut pos), "");
    assert_eq!(pos, 3);
    let mut pos: usize = 0;
    assert_eq!(Tokens::str_parser("", &mut pos), "");
    assert_eq!(pos, 0);
    assert_eq!(value_of("* 70000 70000 0").unwrap(), 0);
    assert_eq!(value_of("^ 2 40 0").unwrap(), 1);
}
