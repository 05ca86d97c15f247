use exprlang::expression::BinaryOp::{Add, And, Div, Mult, Or, Sub};
use exprlang::expression::EvalError::{ArithmeticError, TypeError};
use exprlang::expression::Expr::{BinaryExpr, Constant, UnaryExpr};
use exprlang::expression::UnaryOp::{Neg, Not};
use exprlang::expression::Value::{Bool, Int};
use exprlang::expression::{Expr, Value};

fn bin(l: Value, op: exprlang::expression::BinaryOp, r: Value) -> Expr {
    BinaryExpr(Box::new(Constant(l)), op, Box::new(Constant(r)))
}

#[test]
fn test_binary() {
    let two = Int(2);
    let three = Int(3);

    let res_add = BinaryExpr(Box::new(Constant(two)), Add, Box::new(Constant(three))).eval();
    let res_sub = BinaryExpr(Box::new(Constant(two)), Sub, Box::new(Constant(three))).eval();

    assert_eq!(Ok(Int(5)), res_add);
    assert_eq!(Ok(Int(-1)), res_sub);
}

#[test]
fn test_type_error_ints() {
    let two = Int(2);
    let three = Int(3);

    let res = BinaryExpr(Box::new(Constant(two)), Or, Box::new(Constant(three))).eval();
    assert_eq!(res, Err(TypeError));
}

#[test]
fn test_unary() {
    let t = Bool(true);
    let res = UnaryExpr(Not, Box::new(Constant(t))).eval();

    assert_eq!(res, Ok(Bool(false)))
}

#[test]
fn constant_evaluates_to_itself() {
    assert_eq!(Constant(Int(42)).eval(), Ok(Int(42)));
    assert_eq!(Constant(Bool(false)).eval(), Ok(Bool(false)));
}

#[test]
fn multiplication_and_division() {
    assert_eq!(bin(Int(6), Mult, Int(7)).eval(), Ok(Int(42)));
    assert_eq!(bin(Int(7), Div, Int(2)).eval(), Ok(Int(3)));
    assert_eq!(bin(Int(7), Div, Int(-2)).eval(), Ok(Int(-3)));
    assert_eq!(bin(Int(-7), Div, Int(2)).eval(), Ok(Int(-3)));
    assert_eq!(bin(Int(-7), Div, Int(-2)).eval(), Ok(Int(3)));
}

#[test]
fn integer_operations_wrap_around() {
    assert_eq!(bin(Int(i64::MAX), Add, Int(1)).eval(), Ok(Int(i64::MIN)));
    assert_eq!(bin(Int(i64::MIN), Sub, Int(1)).eval(), Ok(Int(i64::MAX)));
    assert_eq!(bin(Int(i64::MAX), Mult, Int(2)).eval(), Ok(Int(-2)));
    assert_eq!(bin(Int(i64::MIN), Div, Int(-1)).eval(), Ok(Int(i64::MIN)));
    assert_eq!(UnaryExpr(Neg, Box::new(Constant(Int(i64::MIN)))).eval(), Ok(Int(i64::MIN)));
}

#[test]
fn negation_of_integer() {
    assert_eq!(UnaryExpr(Neg, Box::new(Constant(Int(5)))).eval(), Ok(Int(-5)));
}

#[test]
fn boolean_operators() {
    assert_eq!(bin(Bool(true), And, Bool(false)).eval(), Ok(Bool(false)));
    assert_eq!(bin(Bool(true), And, Bool(true)).eval(), Ok(Bool(true)));
    assert_eq!(bin(Bool(false), Or, Bool(true)).eval(), Ok(Bool(true)));
    assert_eq!(bin(Bool(false), Or, Bool(false)).eval(), Ok(Bool(false)));
}

#[test]
fn type_errors() {
    assert_eq!(bin(Bool(true), Add, Bool(false)).eval(), Err(TypeError));
    assert_eq!(bin(Int(1), And, Bool(false)).eval(), Err(TypeError));
    assert_eq!(bin(Bool(true), Div, Int(0)).eval(), Err(TypeError));
    assert_eq!(UnaryExpr(Not, Box::new(Constant(Int(1)))).eval(), Err(TypeError));
    assert_eq!(UnaryExpr(Neg, Box::new(Constant(Bool(true)))).eval(), Err(TypeError));
}

#[test]
fn division_by_zero_constant() {
    assert_eq!(bin(Int(5), Div, Int(0)).eval(), Err(ArithmeticError));
    assert_eq!(bin(Int(0), Div, Int(0)).eval(), Err(ArithmeticError));
    assert_eq!(bin(Int(i64::MIN), Div, Int(0)).eval(), Err(ArithmeticError));
    let dividend = bin(Int(3), Mult, Int(4));
    let e = BinaryExpr(Box::new(dividend), Div, Box::new(Constant(Int(0))));
    assert_eq!(e.eval(), Err(ArithmeticError));
}

#[test]
fn integer_arithmetic_is_total() {
    // ((10 - 4) * 3) / (2 + 1) = 6
    let left = BinaryExpr(Box::new(bin(Int(10), Sub, Int(4))), Mult, Box::new(Constant(Int(3))));
    let e = BinaryExpr(Box::new(left), Div, Box::new(bin(Int(2), Add, Int(1))));
    assert_eq!(e.eval(), Ok(Int(6)));
}

#[test]
fn first_error_wins() {
    let left = bin(Int(1), Div, Int(0));
    let right = bin(Bool(true), Add, Bool(true));
    let e = BinaryExpr(Box::new(left), Add, Box::new(right));
    assert_eq!(e.eval(), Err(ArithmeticError));
}
