//! Constant arithmetic: 32-bit two's complement, with division that rounds toward zero.

use crate::ast::{BinaryOp, UnaryOp};
use vstd::prelude::*;

verus! {

/// The integer that a truth value is.
pub open spec fn truth(b: bool) -> i32 {
    if b {
        1
    } else {
        0
    }
}

/// The value of a prefix operator.
pub open spec fn unary_value(op: UnaryOp, v: i32) -> i32 {
    match op {
        UnaryOp::Plus => v,
        UnaryOp::Minus => 0i32.wrapping_sub(v),
        UnaryOp::Not => truth(v == 0),
    }
}

/// The value of a binary operator; none where a quotient or remainder does not exist.
pub open spec fn binary_value(op: BinaryOp, l: i32, r: i32) -> Option<i32> {
    match op {
        BinaryOp::Mul => Some(l.wrapping_mul(r)),
        BinaryOp::Div => l.checked_div(r),
        BinaryOp::Rem => l.checked_rem(r),
        BinaryOp::Add => Some(l.wrapping_add(r)),
        BinaryOp::Sub => Some(l.wrapping_sub(r)),
        BinaryOp::Lt => Some(truth(l < r)),
        BinaryOp::Gt => Some(truth(l > r)),
        BinaryOp::Le => Some(truth(l <= r)),
        BinaryOp::Ge => Some(truth(l >= r)),
        BinaryOp::Eq => Some(truth(l == r)),
        BinaryOp::Ne => Some(truth(l != r)),
        BinaryOp::And => Some(truth(l != 0 && r != 0)),
        BinaryOp::Or => Some(truth(l != 0 || r != 0)),
    }
}

/// The integer that a truth value is.
pub fn as_int(b: bool) -> (r: i32)
    ensures
        r == truth(b),
{
    if b {
        1
    } else {
        0
    }
}

/// The value of a prefix operator.
pub fn eval_unary(op: UnaryOp, v: i32) -> (r: i32)
    ensures
        r == unary_value(op, v),
{
    match op {
        UnaryOp::Plus => v,
        UnaryOp::Minus => 0i32.wrapping_sub(v),
        UnaryOp::Not => as_int(v == 0),
    }
}

/// The value of a binary operator, if it has one.
pub fn eval_binary(op: BinaryOp, l: i32, r: i32) -> (v: Option<i32>)
    ensures
        v == binary_value(op, l, r),
{
    match op {
        BinaryOp::Mul => Some(l.wrapping_mul(r)),
        BinaryOp::Div => l.checked_div(r),
        BinaryOp::Rem => l.checked_rem(r),
        BinaryOp::Add => Some(l.wrapping_add(r)),
        BinaryOp::Sub => Some(l.wrapping_sub(r)),
        BinaryOp::Lt => Some(as_int(l < r)),
        BinaryOp::Gt => Some(as_int(l > r)),
        BinaryOp::Le => Some(as_int(l <= r)),
        BinaryOp::Ge => Some(as_int(l >= r)),
        BinaryOp::Eq => Some(as_int(l == r)),
        BinaryOp::Ne => Some(as_int(l != r)),
        BinaryOp::And => Some(as_int(l != 0 && r != 0)),
        BinaryOp::Or => Some(as_int(l != 0 || r != 0)),
    }
}

/// A binary operator fails only for a zero divisor, and for the least integer divided by -1.
pub proof fn division_fails_only(op: BinaryOp, l: i32, r: i32)
    ensures
        binary_value(op, l, r) is None <==> (op is Div || op is Rem) && (r == 0 || (l == i32::MIN
            && r == -1)),
{
    if op is Div && r != 0 {
        let x = l as int;
        let d = r as int;
        if x > 0 && d > 0 {
            assert(0 <= x / d <= x) by (nonlinear_arith)
                requires
                    x > 0,
                    d > 0,
            ;
        } else if x < 0 && d < 0 {
            let y = x * -1;
            let e = d * -1;
            assert(0 <= y / e <= y) by (nonlinear_arith)
                requires
                    y > 0,
                    e > 0,
            ;
            assert(e >= 2 ==> 2 * (y / e) <= y) by (nonlinear_arith)
                requires
                    y > 0,
                    e > 0,
            ;
            assert(y / 1 == y);
        } else if x < 0 {
            let y = x * -1;
            assert(0 <= y / d <= y) by (nonlinear_arith)
                requires
                    y > 0,
                    d > 0,
            ;
        } else if x > 0 {
            let e = d * -1;
            assert(0 <= x / e <= x) by (nonlinear_arith)
                requires
                    x > 0,
                    e > 0,
            ;
        }
    }
    if op is Rem && r != 0 {
        let x = l as int;
        let d = r as int;
        if x > 0 && d > 0 {
            assert(0 <= x % d < d) by (nonlinear_arith)
                requires
                    d > 0,
            ;
        } else if x < 0 && d < 0 {
            let y = x * -1;
            let e = d * -1;
            assert(0 <= y % e < e) by (nonlinear_arith)
                requires
                    e > 0,
            ;
        } else if x < 0 {
            let y = x * -1;
            assert(0 <= y % d < d) by (nonlinear_arith)
                requires
                    d > 0,
            ;
        } else if x > 0 {
            let e = d * -1;
            assert(0 <= x % e < e) by (nonlinear_arith)
                requires
                    e > 0,
            ;
        }
    }
}

} // verus!
