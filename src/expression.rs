use vstd::prelude::*;

verus! {

/// A literal value. A decimal is held as the text of its literal (an optional
/// minus sign, digits, a point, digits): its floating-point value is computed
/// where floating point is available.
#[derive(Debug, PartialEq)]
pub enum Number {
    Integer(i64),
    Decimal(String),
}

#[derive(Debug, Clone, Copy, PartialEq, Eq, Structural)]
pub enum Operator {
    Add,
    Subtract,
    Multiply,
    Divide,
}

/// An expression tree; each node owns its children.
#[derive(Debug, PartialEq)]
pub enum Expression {
    Literal(Number),
    Binary(Box<Expression>, Operator, Box<Expression>),
}

/// Why an integer computation failed.
#[derive(Debug, Clone, Copy, PartialEq, Eq, Structural)]
pub enum EvalError {
    DivisionByZero,
    Overflow,
}

/// The outcome of evaluating a tree. An integer result is final. A decimal
/// result is a tree still to be computed in floating point: every subtree
/// that evaluates to an integer has been folded into an integer literal, and
/// every node left holds a decimal somewhere below it.
#[derive(Debug, PartialEq)]
pub enum Evaluated {
    Integer(i64),
    Decimal(Expression),
}

/// Whether a decimal literal occurs in the tree.
pub open spec fn contains_decimal(e: Expression) -> bool
    decreases e,
{
    match e {
        Expression::Literal(Number::Integer(_)) => false,
        Expression::Literal(Number::Decimal(_)) => true,
        Expression::Binary(l, _, r) => contains_decimal(*l) || contains_decimal(*r),
    }
}

pub open spec fn abs(a: int) -> int {
    if a < 0 {
        -a
    } else {
        a
    }
}

/// Integer division that truncates toward zero.
pub open spec fn trunc_div(a: int, b: int) -> int {
    if (a < 0) != (b < 0) {
        -(abs(a) / abs(b))
    } else {
        abs(a) / abs(b)
    }
}

/// The exact result of an operator on two integers.
pub open spec fn exact(op: Operator, a: int, b: int) -> int {
    match op {
        Operator::Add => a + b,
        Operator::Subtract => a - b,
        Operator::Multiply => a * b,
        Operator::Divide => trunc_div(a, b),
    }
}

/// An operator applied in 64-bit integer arithmetic: division by zero and
/// results outside the 64-bit range are errors.
pub open spec fn apply_integer(op: Operator, a: int, b: int) -> Result<i64, EvalError> {
    if op == Operator::Divide && b == 0 {
        Err(EvalError::DivisionByZero)
    } else if i64::MIN <= exact(op, a, b) <= i64::MAX {
        Ok(exact(op, a, b) as i64)
    } else {
        Err(EvalError::Overflow)
    }
}

/// The tree that stands for an evaluated operand.
pub open spec fn operand(v: Evaluated) -> Expression {
    match v {
        Evaluated::Integer(i) => Expression::Literal(Number::Integer(i)),
        Evaluated::Decimal(t) => t,
    }
}

/// Evaluation: children first, left before right; a node computes in integer
/// arithmetic only when both children gave integers, and is otherwise kept as
/// a decimal node over its evaluated operands.
pub open spec fn evaluation(e: Expression) -> Result<Evaluated, EvalError>
    decreases e,
{
    match e {
        Expression::Literal(Number::Integer(i)) => Ok(Evaluated::Integer(i)),
        Expression::Literal(Number::Decimal(d)) => Ok(
            Evaluated::Decimal(Expression::Literal(Number::Decimal(d))),
        ),
        Expression::Binary(l, op, r) => match evaluation(*l) {
            Err(x) => Err(x),
            Ok(a) => match evaluation(*r) {
                Err(x) => Err(x),
                Ok(b) => match (a, b) {
                    (Evaluated::Integer(x), Evaluated::Integer(y)) => match apply_integer(
                        op,
                        x as int,
                        y as int,
                    ) {
                        Ok(v) => Ok(Evaluated::Integer(v)),
                        Err(x) => Err(x),
                    },
                    _ => Ok(
                        Evaluated::Decimal(
                            Expression::Binary(Box::new(operand(a)), op, Box::new(operand(b))),
                        ),
                    ),
                },
            },
        },
    }
}

/// Promotion: an evaluation that succeeds gives a decimal exactly when a
/// decimal literal occurs in the tree, and an integer otherwise.
pub proof fn lemma_decimal_exactly_when_decimal_literal(e: Expression)
    requires
        evaluation(e) is Ok,
    ensures
        (evaluation(e)->Ok_0 is Decimal) == contains_decimal(e),
    decreases e,
{
    if let Expression::Binary(l, _, r) = e {
        lemma_decimal_exactly_when_decimal_literal(*l);
        lemma_decimal_exactly_when_decimal_literal(*r);
    }
}

/// Applies an operator to two 64-bit integers.
pub fn apply_integer_op(op: Operator, a: i64, b: i64) -> (r: Result<i64, EvalError>)
    ensures
        r == apply_integer(op, a as int, b as int),
{
    match op {
        Operator::Add => match a.checked_add(b) {
            Some(v) => Ok(v),
            None => Err(EvalError::Overflow),
        },
        Operator::Subtract => match a.checked_sub(b) {
            Some(v) => Ok(v),
            None => Err(EvalError::Overflow),
        },
        Operator::Multiply => match a.checked_mul(b) {
            Some(v) => Ok(v),
            None => Err(EvalError::Overflow),
        },
        Operator::Divide => {
            if b == 0 {
                Err(EvalError::DivisionByZero)
            } else {
                match a.checked_div(b) {
                    Some(v) => Ok(v),
                    None => Err(EvalError::Overflow),
                }
            }
        },
    }
}

impl Expression {
    pub fn is_number(&self) -> (r: bool)
        ensures
            r == (self is Literal),
    {
        match self {
            Expression::Literal(_) => true,
            _ => false,
        }
    }

    pub fn is_binary(&self) -> (r: bool)
        ensures
            r == (self is Binary),
    {
        match self {
            Expression::Binary(_, _, _) => true,
            _ => false,
        }
    }

    pub fn is_number_integer(&self) -> (r: bool)
        ensures
            r == (self matches Expression::Literal(Number::Integer(_))),
    {
        match self {
            Expression::Literal(Number::Integer(_)) => true,
            _ => false,
        }
    }

    pub fn is_number_decimal(&self) -> (r: bool)
        ensures
            r == (self matches Expression::Literal(Number::Decimal(_))),
    {
        match self {
            Expression::Literal(Number::Decimal(_)) => true,
            _ => false,
        }
    }

    /// The value of an integer literal.
    pub fn evaluate_int(&self) -> (r: i64)
        requires
            self matches Expression::Literal(Number::Integer(_)),
        ensures
            *self == Expression::Literal(Number::Integer(r)),
    {
        match self {
            Expression::Literal(Number::Integer(v)) => *v,
            _ => 0,
        }
    }

    /// Evaluates a tree that holds no decimal literal to a 64-bit integer.
    pub fn evaluate_binary_int(&self) -> (r: Result<i64, EvalError>)
        requires
            !contains_decimal(*self),
        ensures
            match evaluation(*self) {
                Ok(v) => r is Ok && v == Evaluated::Integer(r->Ok_0),
                Err(x) => r == Err::<i64, EvalError>(x),
            },
    {
        match self.evaluate() {
            Ok(Evaluated::Integer(v)) => Ok(v),
            Ok(Evaluated::Decimal(_)) => {
                proof {
                    lemma_decimal_exactly_when_decimal_literal(*self);
                }
                Err(EvalError::Overflow)
            },
            Err(x) => Err(x),
        }
    }

    /// Evaluates the tree; see `evaluation`.
    pub fn evaluate(&self) -> (r: Result<Evaluated, EvalError>)
        ensures
            r == evaluation(*self),
        decreases self,
    {
        match self {
            Expression::Literal(Number::Integer(v)) => Ok(Evaluated::Integer(*v)),
            Expression::Literal(Number::Decimal(d)) => Ok(
                Evaluated::Decimal(Expression::Literal(Number::Decimal(d.clone()))),
            ),
            Expression::Binary(l, op, r) => {
                let a = match l.evaluate() {
                    Ok(a) => a,
                    Err(x) => return Err(x),
                };
                let b = match r.evaluate() {
                    Ok(b) => b,
                    Err(x) => return Err(x),
                };
                match (a, b) {
                    (Evaluated::Integer(x), Evaluated::Integer(y)) => match apply_integer_op(
                        *op,
                        x,
                        y,
                    ) {
                        Ok(v) => Ok(Evaluated::Integer(v)),
                        Err(x) => Err(x),
                    },
                    (a, b) => {
                        let left = match a {
                            Evaluated::Integer(i) => Expression::Literal(Number::Integer(i)),
                            Evaluated::Decimal(t) => t,
                        };
                        let right = match b {
                            Evaluated::Integer(i) => Expression::Literal(Number::Integer(i)),
                            Evaluated::Decimal(t) => t,
                        };
                        Ok(Evaluated::Decimal(Expression::Binary(Box::new(left), *op, Box::new(right))))
                    },
                }
            },
        }
    }
}

} // verus!
