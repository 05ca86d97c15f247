//! Typed expression trees and their evaluation.
use vstd::prelude::*;

verus! {

/// A runtime value: a 64-bit signed integer or a boolean.
#[derive(PartialEq, Eq, Debug, Clone, Copy, Structural)]
pub enum Value {
    Int(i64),
    Bool(bool),
}

/// Binary operators. `Add`, `Sub`, `Mult` and `Div` take integers,
/// `And` and `Or` take booleans.
#[derive(PartialEq, Eq, Debug, Clone, Copy, Structural)]
pub enum BinaryOp {
    Add,
    Sub,
    Mult,
    Div,
    And,
    Or,
}

/// Unary operators: `Not` takes a boolean, `Neg` an integer.
#[derive(PartialEq, Eq, Debug, Clone, Copy, Structural)]
pub enum UnaryOp {
    Not,
    Neg,
}

/// Why an evaluation failed.
#[derive(PartialEq, Eq, Debug, Clone, Copy, Structural)]
pub enum EvalError {
    /// An operator met operands of a type it is not defined for,
    /// or operands of two different types.
    TypeError,
    /// Division by the integer zero.
    ArithmeticError,
}

/// A typed expression tree; each node owns its children.
#[derive(PartialEq, Eq, Debug)]
pub enum Expr {
    Constant(Value),
    BinaryExpr(Box<Expr>, BinaryOp, Box<Expr>),
    UnaryExpr(UnaryOp, Box<Expr>),
}

/// The quotient of `l` by `r` rounded toward zero (`r != 0`).
pub open spec fn trunc_quotient(l: int, r: int) -> int {
    let q = (if l < 0 { -l } else { l }) / (if r < 0 { -r } else { r });
    if (l < 0) == (r < 0) {
        q
    } else {
        -q
    }
}

/// Truncating division of 64-bit integers; the one quotient out of range,
/// `i64::MIN / -1`, wraps around to `i64::MIN`.
pub open spec fn wrapping_quotient(l: i64, r: i64) -> i64 {
    if l == i64::MIN && r == -1 {
        i64::MIN
    } else {
        trunc_quotient(l as int, r as int) as i64
    }
}

/// The result of a binary operator on two evaluated operands.
pub open spec fn binary_value(op: BinaryOp, lv: Value, rv: Value) -> Result<Value, EvalError> {
    match (lv, rv) {
        (Value::Int(l), Value::Int(r)) => match op {
            BinaryOp::Add => Ok(Value::Int(vstd::wrapping::i64_specs::wrapping_add(l, r))),
            BinaryOp::Sub => Ok(Value::Int(vstd::wrapping::i64_specs::wrapping_sub(l, r))),
            BinaryOp::Mult => Ok(Value::Int(vstd::wrapping::i64_specs::wrapping_mul(l, r))),
            BinaryOp::Div => if r == 0 {
                Err(EvalError::ArithmeticError)
            } else {
                Ok(Value::Int(wrapping_quotient(l, r)))
            },
            _ => Err(EvalError::TypeError),
        },
        (Value::Bool(l), Value::Bool(r)) => match op {
            BinaryOp::And => Ok(Value::Bool(l && r)),
            BinaryOp::Or => Ok(Value::Bool(l || r)),
            _ => Err(EvalError::TypeError),
        },
        _ => Err(EvalError::TypeError),
    }
}

/// The result of a unary operator on an evaluated operand.
pub open spec fn unary_value(op: UnaryOp, v: Value) -> Result<Value, EvalError> {
    match (op, v) {
        (UnaryOp::Neg, Value::Int(x)) => Ok(Value::Int(vstd::wrapping::i64_specs::wrapping_sub(0, x))),
        (UnaryOp::Not, Value::Bool(b)) => Ok(Value::Bool(!b)),
        _ => Err(EvalError::TypeError),
    }
}

/// The value of an expression: operands are evaluated left before right,
/// and the first error met is the result.
pub open spec fn value_of(e: Expr) -> Result<Value, EvalError>
    decreases e,
{
    match e {
        Expr::Constant(v) => Ok(v),
        Expr::BinaryExpr(left, op, right) => match value_of(*left) {
            Err(err) => Err(err),
            Ok(lv) => match value_of(*right) {
                Err(err) => Err(err),
                Ok(rv) => binary_value(op, lv, rv),
            },
        },
        Expr::UnaryExpr(op, operand) => match value_of(*operand) {
            Err(err) => Err(err),
            Ok(v) => unary_value(op, v),
        },
    }
}

/// Whether `e` is built from integer constants with `Add`, `Sub`, `Mult`
/// and `Div` alone.
pub open spec fn is_int_arith(e: Expr) -> bool
    decreases e,
{
    match e {
        Expr::Constant(v) => v is Int,
        Expr::BinaryExpr(left, op, right) => !(op is And || op is Or) && is_int_arith(*left)
            && is_int_arith(*right),
        Expr::UnaryExpr(_, _) => false,
    }
}

/// Whether no division in `e` has a divisor whose value is the integer zero.
pub open spec fn no_zero_divisor(e: Expr) -> bool
    decreases e,
{
    match e {
        Expr::Constant(_) => true,
        Expr::BinaryExpr(left, op, right) => no_zero_divisor(*left) && no_zero_divisor(*right) && (
        op is Div ==> value_of(*right) != Ok::<Value, EvalError>(Value::Int(0))),
        Expr::UnaryExpr(_, operand) => no_zero_divisor(*operand),
    }
}

/// Integer arithmetic is total: an expression of integer constants and the
/// four integer operators, where no divisor is zero, evaluates to an integer.
pub proof fn lemma_int_arith_total(e: Expr)
    requires
        is_int_arith(e),
        no_zero_divisor(e),
    ensures
        value_of(e) matches Ok(Value::Int(_)),
    decreases e,
{
    if let Expr::BinaryExpr(left, _, right) = e {
        lemma_int_arith_total(*left);
        lemma_int_arith_total(*right);
    }
}

/// Dividing an integer by the constant zero is an arithmetic error, whatever
/// the integer.
pub proof fn lemma_div_by_zero_constant(dividend: Expr)
    requires
        value_of(dividend) matches Ok(Value::Int(_)),
    ensures
        value_of(
            Expr::BinaryExpr(Box::new(dividend), BinaryOp::Div, Box::new(Expr::Constant(Value::Int(0)))),
        ) == Err::<Value, EvalError>(EvalError::ArithmeticError),
{
    let zero = Expr::Constant(Value::Int(0));
    assert(value_of(zero) == Ok::<Value, EvalError>(Value::Int(0)));
}

impl Expr {
    /// Evaluates the expression.
    pub fn eval(&self) -> (r: Result<Value, EvalError>)
        ensures
            r == value_of(*self),
        decreases self,
    {
        match self {
            Expr::Constant(value) => Ok(*value),
            Expr::BinaryExpr(left, op, right) => {
                let left_val = match left.eval() {
                    Ok(v) => v,
                    Err(err) => return Err(err),
                };
                let right_val = match right.eval() {
                    Ok(v) => v,
                    Err(err) => return Err(err),
                };
                eval_binary(*op, left_val, right_val)
            },
            Expr::UnaryExpr(op, operand) => {
                let val = match operand.eval() {
                    Ok(v) => v,
                    Err(err) => return Err(err),
                };
                eval_unary(*op, val)
            },
        }
    }
}

/// Relates `trunc_quotient` to the case split by signs, and bounds it by
/// the magnitude of the dividend.
proof fn lemma_quotient_bounds(x: int, d: int)
    requires
        d != 0,
    ensures
        trunc_quotient(x, d) == (if x == 0 {
            0
        } else if x > 0 && d > 0 {
            x / d
        } else if x < 0 && d < 0 {
            ((x * -1) / (d * -1))
        } else if x < 0 {
            ((x * -1) / d) * -1
        } else {
            (x / (d * -1)) * -1
        }),
        abs_le(trunc_quotient(x, d), x),
        d == 1 ==> trunc_quotient(x, d) == x,
        d == -1 ==> trunc_quotient(x, d) == -x,
        (d > 1 || d < -1) && x != 0 ==> abs_lt(trunc_quotient(x, d), x),
{
    let a: int = if x < 0 { -x } else { x };
    let b: int = if d < 0 { -d } else { d };
    assert(0 <= a / b <= a) by (nonlinear_arith)
        requires
            a >= 0,
            b > 0,
    ;
    assert(b > 1 && a > 0 ==> a / b < a) by (nonlinear_arith)
        requires
            a >= 0,
            b > 0,
    ;
    assert(a / 1 == a);
    assert(x * -1 == -x);
    assert(d * -1 == -d);
}

/// `|q| < |x|`.
spec fn abs_lt(q: int, x: int) -> bool {
    -(if x < 0 { -x } else { x }) < q < (if x < 0 { -x } else { x })
}

/// `|q| <= |x|`.
spec fn abs_le(q: int, x: int) -> bool {
    -(if x < 0 { -x } else { x }) <= q <= (if x < 0 { -x } else { x })
}

/// Truncating, wrapping division of two integers; `r` is not zero.
fn int_quotient(l: i64, r: i64) -> (q: i64)
    requires
        r != 0,
    ensures
        q == wrapping_quotient(l, r),
{
    match l.checked_div(r) {
        Some(q) => {
            proof {
                lemma_quotient_bounds(l as int, r as int);
            }
            q
        },
        None => {
            proof {
                lemma_quotient_bounds(l as int, r as int);
            }
            i64::MIN
        },
    }
}

/// Applies a binary operator to two evaluated operands.
fn eval_binary(op: BinaryOp, left_val: Value, right_val: Value) -> (r: Result<Value, EvalError>)
    ensures
        r == binary_value(op, left_val, right_val),
{
    match (left_val, right_val) {
        (Value::Int(l), Value::Int(r)) => match op {
            BinaryOp::Add => Ok(Value::Int(l.wrapping_add(r))),
            BinaryOp::Sub => Ok(Value::Int(l.wrapping_sub(r))),
            BinaryOp::Mult => Ok(Value::Int(l.wrapping_mul(r))),
            BinaryOp::Div => {
                if r == 0 {
                    Err(EvalError::ArithmeticError)
                } else {
                    Ok(Value::Int(int_quotient(l, r)))
                }
            },
            _ => Err(EvalError::TypeError),
        },
        (Value::Bool(l), Value::Bool(r)) => match op {
            BinaryOp::And => Ok(Value::Bool(l && r)),
            BinaryOp::Or => Ok(Value::Bool(l || r)),
            _ => Err(EvalError::TypeError),
        },
        _ => Err(EvalError::TypeError),
    }
}

/// Applies a unary operator to an evaluated operand.
fn eval_unary(op: UnaryOp, val: Value) -> (r: Result<Value, EvalError>)
    ensures
        r == unary_value(op, val),
{
    match (op, val) {
        (UnaryOp::Neg, Value::Int(x)) => Ok(Value::Int(0i64.wrapping_sub(x))),
        (UnaryOp::Not, Value::Bool(b)) => Ok(Value::Bool(!b)),
        _ => Err(EvalError::TypeError),
    }
}

} // verus!
