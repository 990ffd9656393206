//! Expression kinds and their (total, wrapping) arithmetic.

use vstd::prelude::*;

verus! {

/// A unary operation over a node value.
#[derive(Clone, Copy, PartialEq, Eq, Structural, Debug)]
pub enum UnOp {
    /// Wrapping negation.
    Neg,
}

/// A binary operation over two node values.
#[derive(Clone, Copy, PartialEq, Eq, Structural, Debug)]
pub enum BinOp {
    /// Wrapping addition.
    Add,
    /// Wrapping multiplication.
    Mul,
    /// Wrapping exponentiation; a negative exponent yields 0.
    Pow,
}

/// What a node computes: a constant, a named mutable input, or an
/// operation over the values of its input nodes.
///
/// An expression is immutable once its node is constructed. The label of a
/// `Var` is purely descriptive: it takes no part in lookup or equality.
pub enum Expr {
    /// A constant of the scalar type.
    Literal(i64),
    /// A named mutable input; its value is supplied through a handle.
    Var(String),
    /// A unary operation over one input's value.
    Unary(UnOp),
    /// A binary operation over two inputs' values.
    Binary(BinOp),
}

/// How many input nodes an expression of this kind reads.
pub open spec fn arity(e: Expr) -> nat {
    match e {
        Expr::Literal(_) => 0,
        Expr::Var(_) => 0,
        Expr::Unary(_) => 1,
        Expr::Binary(_) => 2,
    }
}

/// The meaning of a unary operation.
pub open spec fn un_apply(op: UnOp, x: i64) -> i64 {
    match op {
        UnOp::Neg => (0i64).wrapping_sub(x),
    }
}

/// `x` raised to the `n`-th power, with wrapping multiplication.
pub open spec fn pow_nat(x: i64, n: nat) -> i64
    decreases n,
{
    if n == 0 {
        1
    } else {
        x.wrapping_mul(pow_nat(x, (n - 1) as nat))
    }
}

/// The meaning of exponentiation on the scalar type: wrapping powers for a
/// non-negative exponent, 0 for a negative one.
pub open spec fn pow_apply(x: i64, y: i64) -> i64 {
    if y < 0 {
        0
    } else {
        pow_nat(x, y as nat)
    }
}

/// The meaning of a binary operation.
pub open spec fn bin_apply(op: BinOp, x: i64, y: i64) -> i64 {
    match op {
        BinOp::Add => x.wrapping_add(y),
        BinOp::Mul => x.wrapping_mul(y),
        BinOp::Pow => pow_apply(x, y),
    }
}

/// Applies a unary operation.
pub fn apply_un(op: UnOp, x: i64) -> (r: i64)
    ensures
        r == un_apply(op, x),
{
    match op {
        UnOp::Neg => (0i64).wrapping_sub(x),
    }
}

/// Applies a binary operation.
pub fn apply_bin(op: BinOp, x: i64, y: i64) -> (r: i64)
    ensures
        r == bin_apply(op, x, y),
{
    match op {
        BinOp::Add => x.wrapping_add(y),
        BinOp::Mul => x.wrapping_mul(y),
        BinOp::Pow => apply_pow(x, y),
    }
}

/// Computes `pow_apply(x, y)` by repeated wrapping multiplication.
pub fn apply_pow(x: i64, y: i64) -> (r: i64)
    ensures
        r == pow_apply(x, y),
{
    if y < 0 {
        0
    } else {
        let mut acc: i64 = 1;
        let mut i: i64 = 0;
        while i < y
            invariant
                0 <= i <= y,
                acc == pow_nat(x, i as nat),
            decreases y - i,
        {
            acc = x.wrapping_mul(acc);
            i = i + 1;
        }
        acc
    }
}

} // verus!
