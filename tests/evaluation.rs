use calculator::{
    parse_and_evaluate, EvalError, Evaluated, Expression, Failure, Number, Operator, Parser,
};

fn integer(v: i64) -> Expression {
    Expression::Literal(Number::Integer(v))
}

fn decimal(text: &str) -> Expression {
    Expression::Literal(Number::Decimal(text.to_string()))
}

fn bin(l: Expression, op: Operator, r: Expression) -> Expression {
    Expression::Binary(Box::new(l), op, Box::new(r))
}

/// Computes a decimal result tree in floating point.
fn float_of(e: &Expression) -> f64 {
    match e {
        Expression::Literal(Number::Integer(v)) => *v as f64,
        Expression::Literal(Number::Decimal(t)) => t.parse::<f64>().unwrap(),
        Expression::Binary(l, op, r) => {
            let (a, b) = (float_of(l), float_of(r));
            match op {
                Operator::Add => a + b,
                Operator::Subtract => a - b,
                Operator::Multiply => a * b,
                Operator::Divide => a / b,
            }
        }
    }
}

#[test]
fn three_plus_four_is_seven() {
    let mut parser = Parser::new("3+4");
    let e = parser.parse().unwrap();
    assert_eq!(e.evaluate(), Ok(Evaluated::Integer(7)));
    assert_eq!(parse_and_evaluate("3+4"), Ok(Evaluated::Integer(7)));
}

#[test]
fn integer_operand_is_promoted_next_to_a_decimal() {
    let r = parse_and_evaluate("3+2.5");
    assert_eq!(r, Ok(Evaluated::Decimal(bin(integer(3), Operator::Add, decimal("2.5")))));
    match r {
        Ok(Evaluated::Decimal(t)) => assert_eq!(float_of(&t), 5.5),
        _ => panic!("expected a decimal result"),
    }
}

#[test]
fn promotion_is_decided_per_node() {
    // 7/2 has two integer children and is computed in integers first.
    let r = parse_and_evaluate("7/2*1.0");
    assert_eq!(r, Ok(Evaluated::Decimal(bin(integer(3), Operator::Multiply, decimal("1.0")))));
    match r {
        Ok(Evaluated::Decimal(t)) => assert_eq!(float_of(&t), 3.0),
        _ => panic!("expected a decimal result"),
    }
}

#[test]
fn division_by_zero_is_a_failure() {
    assert_eq!(parse_and_evaluate("4/0"), Err(Failure::Evaluation(EvalError::DivisionByZero)));
    assert_eq!(
        parse_and_evaluate("1.5 + 4/0"),
        Err(Failure::Evaluation(EvalError::DivisionByZero))
    );
}

#[test]
fn precedence_gives_fourteen() {
    assert_eq!(parse_and_evaluate("2+3*4"), Ok(Evaluated::Integer(14)));
}

#[test]
fn operators_compute_exactly() {
    assert_eq!(parse_and_evaluate("10 - 4 - 3"), Ok(Evaluated::Integer(3)));
    assert_eq!(parse_and_evaluate("6 * -7"), Ok(Evaluated::Integer(-42)));
    assert_eq!(parse_and_evaluate("100/7/2"), Ok(Evaluated::Integer(7)));
}

#[test]
fn integer_division_truncates_toward_zero() {
    assert_eq!(parse_and_evaluate("7/-2"), Ok(Evaluated::Integer(-3)));
    assert_eq!(parse_and_evaluate("-7/2"), Ok(Evaluated::Integer(-3)));
    assert_eq!(parse_and_evaluate("-7/-2"), Ok(Evaluated::Integer(3)));
}

#[test]
fn results_outside_sixty_four_bits_overflow() {
    assert_eq!(
        parse_and_evaluate("9223372036854775807 + 1"),
        Err(Failure::Evaluation(EvalError::Overflow))
    );
    assert_eq!(
        parse_and_evaluate("-9223372036854775808 / -1"),
        Err(Failure::Evaluation(EvalError::Overflow))
    );
    assert_eq!(
        parse_and_evaluate("4294967296 * 4294967296"),
        Err(Failure::Evaluation(EvalError::Overflow))
    );
}

#[test]
fn parse_failure_reports_diagnostics() {
    assert_eq!(
        parse_and_evaluate("*3"),
        Err(Failure::Diagnostics(vec!["Expected an integer or decimal, but got a \"*\"".to_string()]))
    );
}

#[test]
fn expression_predicates() {
    let e = bin(integer(1), Operator::Add, decimal("2.0"));
    assert!(e.is_binary() && !e.is_number());
    assert!(integer(1).is_number_integer() && !integer(1).is_number_decimal());
    assert!(decimal("2.0").is_number_decimal() && !decimal("2.0").is_number_integer());
    assert_eq!(integer(-5).evaluate_int(), -5);
}

#[test]
fn integer_tree_evaluates_to_an_integer() {
    assert_eq!(bin(integer(6), Operator::Divide, integer(4)).evaluate_binary_int(), Ok(1));
    assert_eq!(
        bin(integer(6), Operator::Divide, integer(0)).evaluate_binary_int(),
        Err(EvalError::DivisionByZero)
    );
}
