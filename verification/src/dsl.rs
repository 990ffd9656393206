//! Builder functions that allocate nodes and wire them together, one per
//! supported operation.

use vstd::prelude::*;

use crate::expr::{pow_apply, BinOp, Expr, UnOp};
use crate::node::{node_val, Graph, NodeId};
use crate::var::Var;

verus! {

/// Allocates a literal node holding the constant `x`.
pub fn lit(g: &mut Graph, x: i64) -> (i: NodeId)
    requires
        old(g).wf(),
        old(g).cache_ok(),
    ensures
        final(g).wf(),
        final(g).cache_ok(),
        final(g).nodes@.len() == old(g).nodes@.len() + 1,
        i == old(g).nodes@.len(),
        forall|j: int| 0 <= j < old(g).nodes@.len() ==> final(g).nodes@[j] == old(g).nodes@[j],
        forall|j: int|
            0 <= j < old(g).nodes@.len() ==> node_val(final(g).nodes@, j) == node_val(
                old(g).nodes@,
                j,
            ),
        final(g).nodes@[i as int].expr == Expr::Literal(x),
        final(g).nodes@[i as int].inputs@.len() == 0,
        final(g).nodes@[i as int].value is None,
        node_val(final(g).nodes@, i as int) == Some(x),
{
    g.input(Expr::Literal(x))
}

/// Allocates a named-input node and returns the handle that sets and
/// clears its value. A fresh named input starts with no value.
pub fn var(g: &mut Graph, name: &str) -> (v: Var)
    requires
        old(g).wf(),
        old(g).cache_ok(),
    ensures
        final(g).wf(),
        final(g).cache_ok(),
        final(g).nodes@.len() == old(g).nodes@.len() + 1,
        v.id == old(g).nodes@.len(),
        final(g).nodes@[v.id as int].expr is Var,
        final(g).nodes@[v.id as int].inputs@.len() == 0,
        final(g).nodes@[v.id as int].value is None,
        forall|j: int| 0 <= j < old(g).nodes@.len() ==> final(g).nodes@[j] == old(g).nodes@[j],
        forall|j: int|
            0 <= j < old(g).nodes@.len() ==> node_val(final(g).nodes@, j) == node_val(
                old(g).nodes@,
                j,
            ),
        node_val(final(g).nodes@, v.id as int) is None,
{
    let id = g.input(Expr::Var(name.to_owned()));
    Var { id }
}

/// Allocates a node computing the wrapping sum of `a` and `b`.
pub fn add(g: &mut Graph, a: NodeId, b: NodeId) -> (i: NodeId)
    requires
        old(g).wf(),
        old(g).cache_ok(),
        a < old(g).nodes@.len(),
        b < old(g).nodes@.len(),
    ensures
        final(g).wf(),
        final(g).cache_ok(),
        final(g).nodes@.len() == old(g).nodes@.len() + 1,
        i == old(g).nodes@.len(),
        forall|j: int|
            0 <= j < old(g).nodes@.len() ==> (#[trigger] final(g).nodes@[j]).expr
                == old(g).nodes@[j].expr && final(g).nodes@[j].inputs@ == old(g).nodes@[j].inputs@
                && final(g).nodes@[j].value == old(g).nodes@[j].value,
        forall|j: int|
            0 <= j < old(g).nodes@.len() ==> node_val(final(g).nodes@, j) == node_val(
                old(g).nodes@,
                j,
            ),
        final(g).nodes@[i as int].expr == Expr::Binary(BinOp::Add),
        final(g).nodes@[i as int].inputs@ == seq![a, b],
        final(g).nodes@[i as int].value is None,
        node_val(final(g).nodes@, i as int) == (match (
            node_val(old(g).nodes@, a as int),
            node_val(old(g).nodes@, b as int),
        ) {
            (Some(x), Some(y)) => Some(x.wrapping_add(y)),
            _ => None::<i64>,
        }),
{
    g.binary(a, b, BinOp::Add)
}

/// Allocates a node computing the wrapping product of `a` and `b`.
pub fn mul(g: &mut Graph, a: NodeId, b: NodeId) -> (i: NodeId)
    requires
        old(g).wf(),
        old(g).cache_ok(),
        a < old(g).nodes@.len(),
        b < old(g).nodes@.len(),
    ensures
        final(g).wf(),
        final(g).cache_ok(),
        final(g).nodes@.len() == old(g).nodes@.len() + 1,
        i == old(g).nodes@.len(),
        forall|j: int|
            0 <= j < old(g).nodes@.len() ==> (#[trigger] final(g).nodes@[j]).expr
                == old(g).nodes@[j].expr && final(g).nodes@[j].inputs@ == old(g).nodes@[j].inputs@
                && final(g).nodes@[j].value == old(g).nodes@[j].value,
        forall|j: int|
            0 <= j < old(g).nodes@.len() ==> node_val(final(g).nodes@, j) == node_val(
                old(g).nodes@,
                j,
            ),
        final(g).nodes@[i as int].expr == Expr::Binary(BinOp::Mul),
        final(g).nodes@[i as int].inputs@ == seq![a, b],
        final(g).nodes@[i as int].value is None,
        node_val(final(g).nodes@, i as int) == (match (
            node_val(old(g).nodes@, a as int),
            node_val(old(g).nodes@, b as int),
        ) {
            (Some(x), Some(y)) => Some(x.wrapping_mul(y)),
            _ => None::<i64>,
        }),
{
    g.binary(a, b, BinOp::Mul)
}

/// Allocates a node raising `a` to the power `b` (wrapping; a negative
/// exponent yields 0).
pub fn pow(g: &mut Graph, a: NodeId, b: NodeId) -> (i: NodeId)
    requires
        old(g).wf(),
        old(g).cache_ok(),
        a < old(g).nodes@.len(),
        b < old(g).nodes@.len(),
    ensures
        final(g).wf(),
        final(g).cache_ok(),
        final(g).nodes@.len() == old(g).nodes@.len() + 1,
        i == old(g).nodes@.len(),
        forall|j: int|
            0 <= j < old(g).nodes@.len() ==> (#[trigger] final(g).nodes@[j]).expr
                == old(g).nodes@[j].expr && final(g).nodes@[j].inputs@ == old(g).nodes@[j].inputs@
                && final(g).nodes@[j].value == old(g).nodes@[j].value,
        forall|j: int|
            0 <= j < old(g).nodes@.len() ==> node_val(final(g).nodes@, j) == node_val(
                old(g).nodes@,
                j,
            ),
        final(g).nodes@[i as int].expr == Expr::Binary(BinOp::Pow),
        final(g).nodes@[i as int].inputs@ == seq![a, b],
        final(g).nodes@[i as int].value is None,
        node_val(final(g).nodes@, i as int) == (match (
            node_val(old(g).nodes@, a as int),
            node_val(old(g).nodes@, b as int),
        ) {
            (Some(x), Some(y)) => Some(pow_apply(x, y)),
            _ => None::<i64>,
        }),
{
    g.binary(a, b, BinOp::Pow)
}

/// Allocates a node computing the wrapping negation of `a`.
pub fn neg(g: &mut Graph, a: NodeId) -> (i: NodeId)
    requires
        old(g).wf(),
        old(g).cache_ok(),
        a < old(g).nodes@.len(),
    ensures
        final(g).wf(),
        final(g).cache_ok(),
        final(g).nodes@.len() == old(g).nodes@.len() + 1,
        i == old(g).nodes@.len(),
        forall|j: int|
            0 <= j < old(g).nodes@.len() ==> (#[trigger] final(g).nodes@[j]).expr
                == old(g).nodes@[j].expr && final(g).nodes@[j].inputs@ == old(g).nodes@[j].inputs@
                && final(g).nodes@[j].value == old(g).nodes@[j].value,
        forall|j: int|
            0 <= j < old(g).nodes@.len() ==> node_val(final(g).nodes@, j) == node_val(
                old(g).nodes@,
                j,
            ),
        final(g).nodes@[i as int].expr == Expr::Unary(UnOp::Neg),
        final(g).nodes@[i as int].inputs@ == seq![a],
        final(g).nodes@[i as int].value is None,
        node_val(final(g).nodes@, i as int) == (match node_val(old(g).nodes@, a as int) {
            Some(x) => Some((0i64).wrapping_sub(x)),
            None => None::<i64>,
        }),
{
    g.unary(a, UnOp::Neg)
}

} // verus!
