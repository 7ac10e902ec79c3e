//! The arithmetic of machine words: integers modulo 2^32, taken between -2^31 and 2^31 - 1.

use crate::ast::{BinaryOp, UnaryOp};
use crate::eval;
use vstd::prelude::*;

verus! {

/// How many words there are.
pub open spec fn modulus() -> int {
    0x1_0000_0000
}

/// The word that an integer is modulo 2^32.
pub open spec fn wrap(x: int) -> i32 {
    if x % modulus() > i32::MAX {
        (x % modulus() - modulus()) as i32
    } else {
        (x % modulus()) as i32
    }
}

/// The unsigned number with the bits of a word.
pub open spec fn bits(x: i32) -> int {
    if x < 0 {
        x + modulus()
    } else {
        x as int
    }
}

/// The size of an integer without its sign.
pub open spec fn size(x: int) -> int {
    if x < 0 {
        -x
    } else {
        x
    }
}

/// The quotient of two integers, rounded toward zero.
pub open spec fn quotient(x: int, d: int) -> int {
    if (x < 0) == (d < 0) {
        size(x) / size(d)
    } else {
        -(size(x) / size(d))
    }
}

/// What is left after the quotient rounded toward zero.
pub open spec fn remainder(x: int, d: int) -> int {
    x - quotient(x, d) * d
}

/// Whether a quotient of words exists and is a word.
pub open spec fn divides(x: i32, d: i32) -> bool {
    d != 0 && !(x == i32::MIN && d == -1)
}

/// A word is itself modulo 2^32.
pub proof fn wrap_is_unique(x: int, v: i32)
    requires
        (x - v) % modulus() == 0,
    ensures
        wrap(x) == v,
{
    let m = modulus();
    let k = (x - v) / m;
    assert(x == v + k * m) by {
        vstd::arithmetic::div_mod::lemma_fundamental_div_mod(x - v, m);
    }
    if v >= 0 {
        vstd::arithmetic::div_mod::lemma_fundamental_div_mod_converse(x, m, k, v as int);
    } else {
        assert((k - 1) * m == k * m - m) by (nonlinear_arith);
        vstd::arithmetic::div_mod::lemma_fundamental_div_mod_converse(x, m, k - 1, v + m);
    }
}

/// Sums, differences and products of words that wrap around are those of the integers.
pub proof fn wrapping_is_wrap(x: i32, y: i32)
    ensures
        x.wrapping_add(y) == wrap(x + y),
        x.wrapping_sub(y) == wrap(x - y),
        x.wrapping_mul(y) == wrap(x * y),
{
    let a = x.wrapping_add(y);
    let b = x.wrapping_sub(y);
    wrap_is_unique(x + y, a);
    wrap_is_unique(x - y, b);
}

/// The quotient of two words is rounded toward zero, and the remainder is what is left.
pub proof fn division_rounds(x: i32, d: i32)
    requires
        divides(x, d),
    ensures
        x.checked_div(d) is Some && x.checked_div(d)->0 == quotient(x as int, d as int),
        x.checked_rem(d) is Some && x.checked_rem(d)->0 == remainder(x as int, d as int),
{
    eval::division_fails_only(BinaryOp::Div, x, d);
    eval::division_fails_only(BinaryOp::Rem, x, d);
    let n = size(x as int);
    let e = size(d as int);
    vstd::arithmetic::div_mod::lemma_fundamental_div_mod(n, e);
    let q = n / e;
    assert(n % e == n - e * q);
    assert(q * e == e * q && q * -e == -(e * q) && (-q) * e == -(e * q) && (-q) * -e == e * q)
        by (nonlinear_arith);
    assert(0int / e == 0) by {
        vstd::arithmetic::div_mod::lemma_div_basics(e);
    }
}

/// What the operators of the language compute: sums, differences and products modulo 2^32,
/// quotients rounded toward zero, remainders with the sign of the dividend, and one or zero for
/// what holds and what does not.
pub proof fn operators_compute(op: BinaryOp, l: i32, r: i32)
    ensures
        match op {
            BinaryOp::Add => eval::binary_value(op, l, r) == Some(wrap(l + r)),
            BinaryOp::Sub => eval::binary_value(op, l, r) == Some(wrap(l - r)),
            BinaryOp::Mul => eval::binary_value(op, l, r) == Some(wrap(l * r)),
            BinaryOp::Div => if divides(l, r) {
                eval::binary_value(op, l, r) matches Some(v) && v == quotient(l as int, r as int)
            } else {
                eval::binary_value(op, l, r) is None
            },
            BinaryOp::Rem => if divides(l, r) {
                eval::binary_value(op, l, r) matches Some(v) && v == remainder(l as int, r as int)
            } else {
                eval::binary_value(op, l, r) is None
            },
            _ => eval::binary_value(op, l, r) == Some(0i32) || eval::binary_value(op, l, r) == Some(
                1i32,
            ),
        },
        eval::binary_value(BinaryOp::Eq, l, r) == Some(1i32) <==> l == r,
        eval::binary_value(BinaryOp::Ne, l, r) == Some(1i32) <==> l != r,
        eval::binary_value(BinaryOp::Lt, l, r) == Some(1i32) <==> l < r,
        eval::binary_value(BinaryOp::Gt, l, r) == Some(1i32) <==> l > r,
        eval::binary_value(BinaryOp::Le, l, r) == Some(1i32) <==> l <= r,
        eval::binary_value(BinaryOp::Ge, l, r) == Some(1i32) <==> l >= r,
        eval::binary_value(BinaryOp::And, l, r) == Some(1i32) <==> l != 0 && r != 0,
        eval::binary_value(BinaryOp::Or, l, r) == Some(1i32) <==> l != 0 || r != 0,
{
    wrapping_is_wrap(l, r);
    eval::division_fails_only(op, l, r);
    if divides(l, r) {
        division_rounds(l, r);
    }
}

/// What the prefix operators compute.
pub proof fn prefix_operators_compute(v: i32)
    ensures
        eval::unary_value(UnaryOp::Plus, v) == v,
        eval::unary_value(UnaryOp::Minus, v) == wrap(-v),
        eval::unary_value(UnaryOp::Not, v) == 1 <==> v == 0,
        eval::unary_value(UnaryOp::Not, v) == 0 <==> v != 0,
{
    wrapping_is_wrap(0, v);
}

} // verus!
