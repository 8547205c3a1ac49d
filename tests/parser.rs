use calculator::{Expression, Number, Operator, Parser, TokenKind};

fn integer(v: i64) -> Expression {
    Expression::Literal(Number::Integer(v))
}

fn decimal(text: &str) -> Expression {
    Expression::Literal(Number::Decimal(text.to_string()))
}

fn bin(l: Expression, op: Operator, r: Expression) -> Expression {
    Expression::Binary(Box::new(l), op, Box::new(r))
}

#[test]
fn three_plus_four_parses_to_a_sum() {
    let mut parser = Parser::new("3+4");
    let e = parser.parse();
    assert!(parser.diagnostics.is_empty());
    assert_eq!(e, Some(bin(integer(3), Operator::Add, integer(4))));
}

#[test]
fn operator_without_left_operand_is_diagnosed() {
    let mut parser = Parser::new("*3");
    let e = parser.parse();
    assert_eq!(e, None);
    assert_eq!(parser.diagnostics, vec!["Expected an integer or decimal, but got a \"*\"".to_string()]);
}

#[test]
fn empty_line_is_diagnosed() {
    let mut parser = Parser::new("   ");
    assert_eq!(parser.parse(), None);
    assert_eq!(parser.diagnostics, vec!["Expected an integer or decimal, but got a \"\"".to_string()]);
}

#[test]
fn missing_right_operand_is_diagnosed() {
    let mut parser = Parser::new("2 * 3 +");
    assert_eq!(parser.parse(), None);
    assert_eq!(parser.diagnostics.len(), 1);
}

#[test]
fn multiplication_binds_tighter_than_addition() {
    let mut parser = Parser::new("2+3*4");
    assert_eq!(
        parser.parse(),
        Some(bin(integer(2), Operator::Add, bin(integer(3), Operator::Multiply, integer(4))))
    );
    let mut parser = Parser::new("2*3+4/2.0");
    assert_eq!(
        parser.parse(),
        Some(bin(
            bin(integer(2), Operator::Multiply, integer(3)),
            Operator::Add,
            bin(integer(4), Operator::Divide, decimal("2.0"))
        ))
    );
}

#[test]
fn operators_group_to_the_left() {
    let mut parser = Parser::new("8 - 2 - 1");
    assert_eq!(
        parser.parse(),
        Some(bin(bin(integer(8), Operator::Subtract, integer(2)), Operator::Subtract, integer(1)))
    );
    let mut parser = Parser::new("8/4/2");
    assert_eq!(
        parser.parse(),
        Some(bin(bin(integer(8), Operator::Divide, integer(4)), Operator::Divide, integer(2)))
    );
}

#[test]
fn bad_tokens_are_dropped_before_parsing() {
    let parser = Parser::new("1 ? + 2");
    let kinds: Vec<TokenKind> = parser.tokens.iter().map(|t| t.kind).collect();
    assert_eq!(
        kinds,
        vec![TokenKind::Integer(1), TokenKind::Plus, TokenKind::Integer(2), TokenKind::EndOfInput]
    );
    let mut parser = parser;
    assert_eq!(parser.parse(), Some(bin(integer(1), Operator::Add, integer(2))));
}

#[test]
fn what_follows_a_complete_expression_is_left_unread() {
    let mut parser = Parser::new("3 4");
    assert_eq!(parser.parse(), Some(integer(3)));
    assert!(parser.diagnostics.is_empty());
    assert_eq!(parser.position, 1);
}

#[test]
fn parse_expression_reads_one_literal() {
    let mut parser = Parser::new("2.5 + 1");
    assert_eq!(parser.parse_expression(), Some(decimal("2.5")));
    assert_eq!(parser.position, 1);
    assert_eq!(parser.parse_expression(), None);
    assert_eq!(parser.diagnostics, vec!["Expected an integer or decimal, but got a \"+\"".to_string()]);
}
