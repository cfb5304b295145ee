use while_lang::{
    eval, eval_op, parse, parse_expression, scan_file, EvalError, Token, TokenStream, TokenType,
    AST,
};

fn expression(text: &str) -> AST {
    let tokens = match scan_file(text.to_string()) {
        Ok(tokens) => tokens,
        Err(e) => panic!("{}", e.to_string()),
    };
    match parse_expression(&mut TokenStream::new(tokens)) {
        Ok(tree) => tree,
        Err(e) => panic!("{}", e.to_string()),
    }
}

fn symbol(text: &str) -> Token {
    Token::new(TokenType::Symbol, text.to_string(), 1)
}

fn number(text: &str) -> AST {
    AST::new(Token::new(TokenType::Number, text.to_string(), 1))
}

#[test]
fn a_number_stands_for_itself() {
    assert!(matches!(eval(expression("0")), Ok(0)));
    assert!(matches!(eval(expression("42")), Ok(42)));
    assert!(matches!(eval(expression("4294967295")), Ok(4294967295)));
    assert!(matches!(eval(expression("007")), Ok(7)));
}

#[test]
fn a_product_is_taken_before_a_sum() {
    assert!(matches!(eval(expression("2 + 3 * 4")), Ok(14)));
}

#[test]
fn brackets_are_taken_first() {
    assert!(matches!(eval(expression("(2 + 3) * 4")), Ok(20)));
}

#[test]
fn the_levels_are_plus_minus_slash_star() {
    assert!(matches!(eval(expression("10 - 2 - 3")), Ok(5)));
    assert!(matches!(eval(expression("2 + 3 - 1")), Ok(4)));
    assert!(matches!(eval(expression("1 - 2 + 3")), Ok(3)));
    assert!(matches!(eval(expression("8 / 2 * 2")), Ok(2)));
    assert!(matches!(eval(expression("100 / 10 / 5")), Ok(2)));
    assert!(matches!(eval(expression("7 / 2")), Ok(3)));
}

#[test]
fn subtraction_stops_at_zero() {
    assert!(matches!(eval(expression("3 - 5")), Ok(0)));
    assert!(matches!(eval(expression("0 - 4294967295")), Ok(0)));
    assert!(matches!(eval(expression("5 - 5")), Ok(0)));
    assert!(matches!(eval(expression("5 - 3")), Ok(2)));
    assert!(matches!(eval(expression("3 - 5 + 1")), Ok(1)));
}

#[test]
fn division_by_zero_carries_the_numerator() {
    assert!(matches!(eval(expression("7 / 0")), Err(EvalError::DivByZero { numerator: 7 })));
    assert!(matches!(
        eval(expression("(2 + 3) / (4 - 9)")),
        Err(EvalError::DivByZero { numerator: 5 })
    ));
    assert!(matches!(eval(expression("0 / 0")), Err(EvalError::DivByZero { numerator: 0 })));
}

#[test]
fn an_identifier_is_an_undeclared_variable() {
    match eval(expression("x")) {
        Err(EvalError::UndeclaredVariable { variable }) => assert_eq!(variable, "x"),
        _ => panic!("expected an undeclared variable"),
    }
    match eval(expression("1 + total * 2")) {
        Err(EvalError::UndeclaredVariable { variable }) => assert_eq!(variable, "total"),
        _ => panic!("expected an undeclared variable"),
    }
}

#[test]
fn the_left_operand_fails_first() {
    match eval(expression("a + b")) {
        Err(EvalError::UndeclaredVariable { variable }) => assert_eq!(variable, "a"),
        _ => panic!("expected an undeclared variable"),
    }
    assert!(matches!(eval(expression("1 / 0 + b")), Err(EvalError::DivByZero { numerator: 1 })));
    match eval(expression("a + 1 / 0")) {
        Err(EvalError::UndeclaredVariable { variable }) => assert_eq!(variable, "a"),
        _ => panic!("expected an undeclared variable"),
    }
}

#[test]
fn a_statement_has_no_value() {
    let tokens = scan_file("x := 1".to_string()).ok().unwrap();
    let tree = parse(&mut TokenStream::new(tokens)).ok().unwrap();
    match eval(tree) {
        Err(EvalError::UndeclaredVariable { variable }) => assert_eq!(variable, "x"),
        _ => panic!("expected an undeclared variable"),
    }
    let tokens = scan_file("skip".to_string()).ok().unwrap();
    let tree = parse(&mut TokenStream::new(tokens)).ok().unwrap();
    match eval(tree) {
        Err(EvalError::UndeclaredVariable { variable }) => assert_eq!(variable, "skip"),
        _ => panic!("expected an undeclared variable"),
    }
}

#[test]
fn a_node_with_one_subtree_has_no_value() {
    let tree = AST::new(symbol("+")).left(number("1"));
    match eval(tree) {
        Err(EvalError::UndeclaredVariable { variable }) => assert_eq!(variable, "+"),
        _ => panic!("expected an undeclared variable"),
    }
}

#[test]
fn an_unknown_operator_is_an_undeclared_variable() {
    let tree = AST::new(symbol(";")).left(number("1")).right(number("2"));
    match eval(tree) {
        Err(EvalError::UndeclaredVariable { variable }) => assert_eq!(variable, ";"),
        _ => panic!("expected an undeclared variable"),
    }
    match eval_op(symbol("%"), 1, 2) {
        Err(EvalError::UndeclaredVariable { variable }) => assert_eq!(variable, "%"),
        _ => panic!("expected an undeclared variable"),
    }
}

#[test]
fn each_operator_is_applied() {
    assert!(matches!(eval_op(symbol("+"), 4294967290, 5), Ok(4294967295)));
    assert!(matches!(eval_op(symbol("-"), 9, 4), Ok(5)));
    assert!(matches!(eval_op(symbol("-"), 4, 9), Ok(0)));
    assert!(matches!(eval_op(symbol("*"), 65535, 65537), Ok(4294967295)));
    assert!(matches!(eval_op(symbol("/"), 9, 4), Ok(2)));
    assert!(matches!(eval_op(symbol("/"), 9, 0), Err(EvalError::DivByZero { numerator: 9 })));
}

#[test]
fn evaluation_errors_are_worded() {
    assert_eq!(EvalError::DivByZero { numerator: 12 }.to_string(), "divide by zero at 12 / 0");
    assert_eq!(
        EvalError::UndeclaredVariable { variable: "x".to_string() }.to_string(),
        "use of undeclared variable \"x\""
    );
}
