//! The graph arena: nodes, the value cache, memoized evaluation and cache
//! invalidation.
//!
//! Nodes live in one `Graph` and refer to each other by index. Every input
//! edge points to a strictly smaller index, so the graph is a DAG by
//! construction; every node also records the indices of its consumers
//! (`outputs`), and invalidation walks those back-edges.

use vstd::prelude::*;

use crate::expr::{apply_bin, apply_un, arity, bin_apply, un_apply, BinOp, Expr, UnOp};

verus! {

/// Index of a node within its graph.
pub type NodeId = usize;

/// A graph vertex: the expression it evaluates, the indices of its input
/// nodes, back-references to its consumers, and the cache slot.
///
/// `value` absent means "not known to be valid": either never computed,
/// or invalidated, or the product of an evaluation that found an input
/// unavailable. `value` present means "valid, return immediately".
pub struct Node {
    /// What this node computes.
    pub expr: Expr,
    /// The nodes this node reads, in order; each index is strictly
    /// smaller than this node's own index.
    pub inputs: Vec<NodeId>,
    /// Every node that lists this node as an input; each index is
    /// strictly larger than this node's own index.
    pub outputs: Vec<NodeId>,
    /// The cache slot.
    pub value: Option<i64>,
}

/// A computation graph: an arena of nodes forming a DAG.
pub struct Graph {
    /// The nodes, in order of construction.
    pub nodes: Vec<Node>,
}

/// Local well-formedness of node `i`: its input count matches its
/// expression's arity, inputs point strictly down, outputs strictly up.
pub open spec fn node_wf(g: Seq<Node>, i: int) -> bool {
    &&& g[i].inputs@.len() == arity(g[i].expr)
    &&& forall|m: int|
        0 <= m < g[i].inputs@.len() ==> (#[trigger] g[i].inputs@[m]) < i
    &&& forall|m: int|
        0 <= m < g[i].outputs@.len() ==> i < (#[trigger] g[i].outputs@[m]) < g.len()
}

/// Node `i` stands among the inputs of node `j`.
pub open spec fn has_input(g: Seq<Node>, j: int, i: int) -> bool {
    exists|m: int| 0 <= m < g[j].inputs@.len() && g[j].inputs@[m] as int == i
}

/// Node `j` stands among the outputs of node `i`.
pub open spec fn has_output(g: Seq<Node>, i: int, j: int) -> bool {
    exists|m: int| 0 <= m < g[i].outputs@.len() && g[i].outputs@[m] as int == j
}

/// The back-edges are exact: a node's `outputs` holds precisely the nodes
/// that list it as an input.
pub open spec fn edges_wf(g: Seq<Node>) -> bool {
    forall|i: int, j: int|
        0 <= i < g.len() && 0 <= j < g.len() ==> (#[trigger] has_input(g, j, i) <==> #[trigger] has_output(
            g,
            i,
            j,
        ))
}

/// Well-formedness of the whole graph.
pub open spec fn graph_wf(g: Seq<Node>) -> bool {
    (forall|i: int| 0 <= i < g.len() ==> node_wf(g, i)) && edges_wf(g)
}

/// The current value of node `i`, fully recomputed from the graph's
/// structure and the values stored at its input leaves. This is the
/// mathematical meaning a `compute` call must return.
pub open spec fn node_val(g: Seq<Node>, i: int) -> Option<i64>
    decreases i,
{
    if 0 <= i < g.len() {
        match g[i].expr {
            Expr::Literal(x) => Some(x),
            Expr::Var(_) => g[i].value,
            Expr::Unary(op) => if g[i].inputs@.len() == 1 && g[i].inputs@[0] < i {
                match node_val(g, g[i].inputs@[0] as int) {
                    Some(x) => Some(un_apply(op, x)),
                    None => None,
                }
            } else {
                None
            },
            Expr::Binary(op) => if g[i].inputs@.len() == 2 && g[i].inputs@[0] < i && g[i].inputs@[1]
                < i {
                match (node_val(g, g[i].inputs@[0] as int), node_val(g, g[i].inputs@[1] as int)) {
                    (Some(x), Some(y)) => Some(bin_apply(op, x, y)),
                    _ => None,
                }
            } else {
                None
            },
        }
    } else {
        None
    }
}

/// Every present cache slot holds exactly the node's current value: the
/// cache is never stale relative to already-applied mutations.
pub open spec fn caches_ok(g: Seq<Node>) -> bool {
    forall|i: int|
        0 <= i < g.len() && (#[trigger] g[i].value) is Some ==> g[i].value == node_val(g, i)
}

/// Node `i` transitively depends on node `j` through input edges
/// (reflexively: every node depends on itself).
pub open spec fn depends_on(g: Seq<Node>, i: int, j: int) -> bool
    decreases i,
{
    i == j || (0 <= i < g.len() && exists|m: int|
        0 <= m < g[i].inputs@.len() && (#[trigger] g[i].inputs@[m]) < i && depends_on(
            g,
            g[i].inputs@[m] as int,
            j,
        ))
}

/// The two graphs have the same nodes and edges; only cache slots may
/// differ. Construction is the only thing that changes structure.
pub open spec fn same_structure(g1: Seq<Node>, g2: Seq<Node>) -> bool {
    &&& g1.len() == g2.len()
    &&& forall|i: int|
        0 <= i < g1.len() ==> (#[trigger] g2[i]).expr == g1[i].expr && g2[i].inputs@ == g1[i].inputs@
            && g2[i].outputs@ == g1[i].outputs@
}

/// Node `i` is a named-input leaf.
pub open spec fn is_var_node(g: Seq<Node>, i: int) -> bool {
    0 <= i < g.len() && g[i].expr is Var
}

/// Every named-input leaf holds the same value in both graphs.
pub open spec fn vars_preserved(g1: Seq<Node>, g2: Seq<Node>) -> bool {
    forall|k: int|
        0 <= k < g1.len() && (#[trigger] g1[k]).expr is Var ==> g2[k].value == g1[k].value
}

impl Graph {
    /// The graph is well-formed.
    pub open spec fn wf(self) -> bool {
        graph_wf(self.nodes@)
    }

    /// Every cache slot in the graph is sound.
    pub open spec fn cache_ok(self) -> bool {
        caches_ok(self.nodes@)
    }

    /// Creates an empty graph.
    pub fn new() -> (g: Graph)
        ensures
            g.wf(),
            g.cache_ok(),
            g.nodes@.len() == 0,
    {
        Graph { nodes: Vec::new() }
    }

    /// The number of nodes in the graph.
    pub fn len(&self) -> (n: usize)
        ensures
            n == self.nodes@.len(),
    {
        self.nodes.len()
    }

    /// Reads node `i`'s cache slot without evaluating anything.
    pub fn cached(&self, i: NodeId) -> (r: Option<i64>)
        requires
            i < self.nodes@.len(),
        ensures
            r == self.nodes@[i as int].value,
    {
        self.nodes[i].value
    }

    /// Creates a new leaf node (a literal or a named input) and returns
    /// its index.
    pub fn input(&mut self, expr: Expr) -> (i: NodeId)
        requires
            old(self).wf(),
            old(self).cache_ok(),
            arity(expr) == 0,
        ensures
            final(self).wf(),
            final(self).cache_ok(),
            final(self).nodes@.len() == old(self).nodes@.len() + 1,
            i == old(self).nodes@.len(),
            forall|j: int|
                0 <= j < old(self).nodes@.len() ==> final(self).nodes@[j] == old(self).nodes@[j],
            final(self).nodes@[i as int].expr == expr,
            final(self).nodes@[i as int].inputs@.len() == 0,
            final(self).nodes@[i as int].outputs@.len() == 0,
            final(self).nodes@[i as int].value is None,
            forall|j: int|
                0 <= j < old(self).nodes@.len() ==> node_val(final(self).nodes@, j) == node_val(
                    old(self).nodes@,
                    j,
                ),
            node_val(final(self).nodes@, i as int) == (match expr {
                Expr::Literal(x) => Some(x),
                _ => None::<i64>,
            }),
    {
        let i = self.nodes.len();
        let node = Node { expr, inputs: Vec::new(), outputs: Vec::new(), value: None };
        self.nodes.push(node);
        proof {
            let g1 = old(self).nodes@;
            let g2 = self.nodes@;
            lemma_val_extend(g1, g2);
            assert forall|j: int| 0 <= j < g2.len() implies node_wf(g2, j) by {
                if j < g1.len() {
                    assert(node_wf(g1, j));
                    assert(g2[j] == g1[j]);
                }
            }
            assert forall|a: int, b: int|
                0 <= a < g2.len() && 0 <= b < g2.len() implies (#[trigger] has_input(g2, b, a)
                <==> #[trigger] has_output(g2, a, b)) by {
                if a < g1.len() && b < g1.len() {
                    assert(g2[a] == g1[a]);
                    assert(g2[b] == g1[b]);
                    assert(has_input(g2, b, a) == has_input(g1, b, a));
                    assert(has_output(g2, a, b) == has_output(g1, a, b));
                    assert(has_input(g1, b, a) <==> has_output(g1, a, b));
                } else if a == g1.len() {
                    assert(g2[a].outputs@.len() == 0);
                    assert(!has_output(g2, a, b));
                    if b < g1.len() {
                        assert(node_wf(g1, b));
                        assert(g2[b] == g1[b]);
                        assert forall|m: int| 0 <= m < g2[b].inputs@.len() implies g2[b].inputs@[m]
                            as int != a by {
                            assert(g1[b].inputs@[m] < b);
                        }
                    } else {
                        assert(g2[b].inputs@.len() == 0);
                    }
                    assert(!has_input(g2, b, a));
                } else {
                    assert(b == g1.len());
                    assert(g2[b].inputs@.len() == 0);
                    assert(!has_input(g2, b, a));
                    assert(node_wf(g1, a));
                    assert(g2[a] == g1[a]);
                    assert forall|m: int| 0 <= m < g2[a].outputs@.len() implies g2[a].outputs@[m]
                        as int != b by {
                        assert(g1[a].outputs@[m] < g1.len());
                    }
                    assert(!has_output(g2, a, b));
                }
            }
        }
        i
    }

    /// Creates a new unary node over input `a` and returns its index. The
    /// new node registers itself among `a`'s outputs.
    pub fn unary(&mut self, a: NodeId, op: UnOp) -> (i: NodeId)
        requires
            old(self).wf(),
            old(self).cache_ok(),
            a < old(self).nodes@.len(),
        ensures
            final(self).wf(),
            final(self).cache_ok(),
            final(self).nodes@.len() == old(self).nodes@.len() + 1,
            i == old(self).nodes@.len(),
            forall|j: int|
                0 <= j < old(self).nodes@.len() ==> (#[trigger] final(self).nodes@[j]).expr == old(
                    self,
                ).nodes@[j].expr && final(self).nodes@[j].inputs@ == old(self).nodes@[j].inputs@
                    && final(self).nodes@[j].value == old(self).nodes@[j].value,
            final(self).nodes@[i as int].expr == Expr::Unary(op),
            final(self).nodes@[i as int].inputs@ == seq![a],
            final(self).nodes@[i as int].value is None,
            forall|j: int|
                0 <= j < old(self).nodes@.len() ==> node_val(final(self).nodes@, j) == node_val(
                    old(self).nodes@,
                    j,
                ),
            node_val(final(self).nodes@, i as int) == (match node_val(old(self).nodes@, a as int) {
                Some(x) => Some(un_apply(op, x)),
                None => None::<i64>,
            }),
    {
        let i = self.nodes.len();
        let mut ins: Vec<NodeId> = Vec::new();
        ins.push(a);
        let node = Node { expr: Expr::Unary(op), inputs: ins, outputs: Vec::new(), value: None };
        self.nodes.push(node);
        self.nodes[a].outputs.push(i);
        proof {
            let g1 = old(self).nodes@;
            let g2 = self.nodes@;
            assert(g2[i as int].inputs@ == seq![a]);
            assert(has_input(g2, i as int, a as int));
            assert forall|j: int, y: int| 0 <= j < g1.len() implies (#[trigger] has_output(
                g2,
                j,
                y,
            ) <==> (has_output(g1, j, y) || (y == i && has_input(g2, i as int, j)))) by {
                if j == a {
                    assert(g2[j].outputs@ == g1[j].outputs@.push(i));
                    if has_output(g1, j, y) {
                        let m = choose|m: int|
                            0 <= m < g1[j].outputs@.len() && g1[j].outputs@[m] as int == y;
                        assert(g2[j].outputs@[m] as int == y);
                        assert(has_output(g2, j, y));
                    }
                    if y == i {
                        assert(g2[j].outputs@[g1[j].outputs@.len() as int] as int == y);
                        assert(has_output(g2, j, y));
                    }
                    if has_output(g2, j, y) {
                        let m = choose|m: int|
                            0 <= m < g2[j].outputs@.len() && g2[j].outputs@[m] as int == y;
                        if m < g1[j].outputs@.len() {
                            assert(has_output(g1, j, y));
                        } else {
                            assert(y == i);
                        }
                    }
                } else {
                    assert(g2[j].outputs@ == g1[j].outputs@);
                    assert(has_output(g2, j, y) == has_output(g1, j, y));
                    assert forall|m: int| 0 <= m < g2[i as int].inputs@.len() implies g2[
                        i as int
                    ].inputs@[m] as int != j by {
                        assert(g2[i as int].inputs@[m] == a);
                    }
                    assert(!has_input(g2, i as int, j));
                }
            }
            assert(node_wf(g2, i as int));
            lemma_add_node_wf(g1, g2, i as int);
            lemma_val_extend(g1, g2);
            assert(node_val(g2, g2[i as int].inputs@[0] as int) == node_val(g1, a as int));
        }
        i
    }

    /// Creates a new binary node over inputs `a` and `b` (in that order)
    /// and returns its index. The new node registers itself among the
    /// outputs of both inputs.
    pub fn binary(&mut self, a: NodeId, b: NodeId, op: BinOp) -> (i: NodeId)
        requires
            old(self).wf(),
            old(self).cache_ok(),
            a < old(self).nodes@.len(),
            b < old(self).nodes@.len(),
        ensures
            final(self).wf(),
            final(self).cache_ok(),
            final(self).nodes@.len() == old(self).nodes@.len() + 1,
            i == old(self).nodes@.len(),
            forall|j: int|
                0 <= j < old(self).nodes@.len() ==> (#[trigger] final(self).nodes@[j]).expr == old(
                    self,
                ).nodes@[j].expr && final(self).nodes@[j].inputs@ == old(self).nodes@[j].inputs@
                    && final(self).nodes@[j].value == old(self).nodes@[j].value,
            final(self).nodes@[i as int].expr == Expr::Binary(op),
            final(self).nodes@[i as int].inputs@ == seq![a, b],
            final(self).nodes@[i as int].value is None,
            forall|j: int|
                0 <= j < old(self).nodes@.len() ==> node_val(final(self).nodes@, j) == node_val(
                    old(self).nodes@,
                    j,
                ),
            node_val(final(self).nodes@, i as int) == (match (
                node_val(old(self).nodes@, a as int),
                node_val(old(self).nodes@, b as int),
            ) {
                (Some(x), Some(y)) => Some(bin_apply(op, x, y)),
                _ => None::<i64>,
            }),
    {
        let i = self.nodes.len();
        let mut ins: Vec<NodeId> = Vec::new();
        ins.push(a);
        ins.push(b);
        let node = Node { expr: Expr::Binary(op), inputs: ins, outputs: Vec::new(), value: None };
        self.nodes.push(node);
        self.nodes[a].outputs.push(i);
        self.nodes[b].outputs.push(i);
        proof {
            let g1 = old(self).nodes@;
            let g2 = self.nodes@;
            assert(g2[i as int].inputs@ == seq![a, b]);
            assert(g2[i as int].inputs@[0] == a);
            assert(g2[i as int].inputs@[1] == b);
            assert(has_input(g2, i as int, a as int));
            assert(has_input(g2, i as int, b as int));
            assert forall|j: int, y: int| 0 <= j < g1.len() implies (#[trigger] has_output(
                g2,
                j,
                y,
            ) <==> (has_output(g1, j, y) || (y == i && has_input(g2, i as int, j)))) by {
                if j == a || j == b {
                    let n0 = g1[j].outputs@.len() as int;
                    if a == b && j == a {
                        assert(g2[j].outputs@ == g1[j].outputs@.push(i).push(i));
                    } else if j == a {
                        assert(g2[j].outputs@ == g1[j].outputs@.push(i));
                    } else {
                        assert(g2[j].outputs@ == g1[j].outputs@.push(i));
                    }
                    if has_output(g1, j, y) {
                        let m = choose|m: int|
                            0 <= m < g1[j].outputs@.len() && g1[j].outputs@[m] as int == y;
                        assert(g2[j].outputs@[m] as int == y);
                        assert(has_output(g2, j, y));
                    }
                    if y == i {
                        assert(g2[j].outputs@[n0] as int == y);
                        assert(has_output(g2, j, y));
                    }
                    if has_output(g2, j, y) {
                        let m = choose|m: int|
                            0 <= m < g2[j].outputs@.len() && g2[j].outputs@[m] as int == y;
                        if m < n0 {
                            assert(has_output(g1, j, y));
                        } else {
                            assert(y == i);
                        }
                    }
                } else {
                    assert(g2[j].outputs@ == g1[j].outputs@);
                    assert(has_output(g2, j, y) == has_output(g1, j, y));
                    assert forall|m: int| 0 <= m < g2[i as int].inputs@.len() implies g2[
                        i as int
                    ].inputs@[m] as int != j by {
                        assert(g2[i as int].inputs@[m] == a || g2[i as int].inputs@[m] == b);
                    }
                    assert(!has_input(g2, i as int, j));
                }
            }
            assert(node_wf(g2, i as int));
            lemma_add_node_wf(g1, g2, i as int);
            lemma_val_extend(g1, g2);
            assert(node_val(g2, g2[i as int].inputs@[0] as int) == node_val(g1, a as int));
            assert(node_val(g2, g2[i as int].inputs@[1] as int) == node_val(g1, b as int));
        }
        i
    }

    /// Produces the current value of node `i`. If the cache slot is
    /// present the cached value is returned at once, with no
    /// re-evaluation and no side effects. If it is absent the node is
    /// evaluated — recursively computing and caching its inputs; a binary
    /// node computes both inputs even when the first is unavailable — and
    /// the outcome is stored in the cache slot whether available or not
    /// (an unavailable outcome stores the absent state, so it is
    /// re-attempted on the next read).
    pub fn compute(&mut self, i: NodeId) -> (r: Option<i64>)
        requires
            old(self).wf(),
            old(self).cache_ok(),
            i < old(self).nodes@.len(),
        ensures
            final(self).wf(),
            final(self).cache_ok(),
            same_structure(old(self).nodes@, final(self).nodes@),
            vars_preserved(old(self).nodes@, final(self).nodes@),
            r == node_val(old(self).nodes@, i as int),
            final(self).nodes@[i as int].value == r,
            forall|j: int|
                0 <= j < old(self).nodes@.len() && (#[trigger] old(self).nodes@[j].value) is Some
                    ==> final(self).nodes@[j].value == old(self).nodes@[j].value,
            old(self).nodes@[i as int].value is Some ==> forall|j: int|
                0 <= j < old(self).nodes@.len() ==> (#[trigger] final(self).nodes@[j]).value
                    == old(self).nodes@[j].value,
            forall|j: int|
                0 <= j < old(self).nodes@.len() && !depends_on(old(self).nodes@, i as int, j) ==> (
                #[trigger] final(self).nodes@[j]).value == old(self).nodes@[j].value,
            forall|j: int|
                0 <= j < old(self).nodes@.len() ==> (#[trigger] final(self).nodes@[j]).value
                    == old(self).nodes@[j].value || final(self).nodes@[j].value == node_val(
                    old(self).nodes@,
                    j,
                ),
            (old(self).nodes@[i as int].value is None && old(self).nodes@[i as int].expr is Unary)
                ==> final(self).nodes@[old(self).nodes@[i as int].inputs@[0] as int].value
                == node_val(old(self).nodes@, old(self).nodes@[i as int].inputs@[0] as int),
            (old(self).nodes@[i as int].value is None && old(self).nodes@[i as int].expr is Binary)
                ==> final(self).nodes@[old(self).nodes@[i as int].inputs@[0] as int].value
                == node_val(old(self).nodes@, old(self).nodes@[i as int].inputs@[0] as int)
                    && final(self).nodes@[old(self).nodes@[i as int].inputs@[1] as int].value
                    == node_val(old(self).nodes@, old(self).nodes@[i as int].inputs@[1] as int),
        decreases i,
    {
        let ghost g0 = old(self).nodes@;
        let ghost ii = i as int;
        if let Some(x) = self.nodes[i].value {
            return Some(x);
        }
        let r: Option<i64>;
        match &self.nodes[i].expr {
            Expr::Literal(x) => {
                r = Some(*x);
            },
            Expr::Var(_) => {
                r = None;
            },
            Expr::Unary(op) => {
                let o: UnOp = *op;
                proof {
                    assert(node_wf(g0, ii));
                    assert(g0[ii].expr is Unary);
                    assert(g0[ii].inputs@.len() == 1);
                    assert(g0[ii].inputs@[0] < i);
                }
                let a = self.nodes[i].inputs[0];
                let xo = self.compute(a);
                r = match xo {
                    Some(x) => Some(apply_un(o, x)),
                    None => None,
                };
                proof {
                    lemma_compute_deterministic(g0, self.nodes@);
                }
            },
            Expr::Binary(op) => {
                let o: BinOp = *op;
                proof {
                    assert(node_wf(g0, ii));
                    assert(g0[ii].expr is Binary);
                    assert(g0[ii].inputs@.len() == 2);
                    assert(g0[ii].inputs@[0] < i);
                    assert(g0[ii].inputs@[1] < i);
                }
                let a = self.nodes[i].inputs[0];
                let b = self.nodes[i].inputs[1];
                let xo = self.compute(a);
                let ghost g1 = self.nodes@;
                proof {
                    lemma_compute_deterministic(g0, g1);
                }
                let yo = self.compute(b);
                proof {
                    let g2 = self.nodes@;
                    lemma_compute_deterministic(g1, g2);
                    assert(node_val(g2, b as int) == node_val(g0, b as int));
                    assert(yo == node_val(g0, b as int));
                    assert(g2[a as int].value == node_val(g0, a as int)) by {
                        if g1[a as int].value is Some {
                            assert(g2[a as int].value == g1[a as int].value);
                        } else {
                            assert(g1[a as int].value == node_val(g0, a as int));
                            assert(node_val(g0, a as int) is None);
                            assert(g2[a as int].value == g1[a as int].value || g2[a as int].value
                                == node_val(g1, a as int));
                        }
                    }
                    assert forall|j: int|
                        0 <= j < g0.len() && !depends_on(g0, ii, j) implies (
                    #[trigger] g2[j]).value == g0[j].value by {
                        if depends_on(g0, a as int, j) {
                            assert(depends_on(g0, ii, a as int)) by {
                                assert(0 <= 0 < g0[ii].inputs@.len() && (g0[ii].inputs@[0]) < ii
                                    && depends_on(g0, g0[ii].inputs@[0] as int, a as int));
                            }
                            lemma_depends_trans(g0, ii, a as int, j);
                        }
                        if depends_on(g1, b as int, j) {
                            lemma_depends_structure(g1, g0, b as int, j);
                            assert(depends_on(g0, ii, b as int)) by {
                                assert(0 <= 1 < g0[ii].inputs@.len() && (g0[ii].inputs@[1]) < ii
                                    && depends_on(g0, g0[ii].inputs@[1] as int, b as int));
                            }
                            lemma_depends_trans(g0, ii, b as int, j);
                        }
                    }
                }
                r = match (xo, yo) {
                    (Some(x), Some(y)) => Some(apply_bin(o, x, y)),
                    _ => None,
                };
            },
        }
        let ghost gs = self.nodes@;
        proof {
            assert(r == node_val(g0, ii)) by {
                assert(node_wf(g0, ii));
            }
            lemma_compute_deterministic(g0, gs);
        }
        self.nodes[i].value = r;
        proof {
            let gf = self.nodes@;
            assert(same_structure(g0, gf));
            lemma_wf_same_structure(g0, gf);
            assert forall|k: int|
                0 <= k < g0.len() && (#[trigger] g0[k]).expr is Var implies gf[k].value
                == g0[k].value by {
                if k == ii {
                    assert(g0[ii].value is None);
                    assert(r == node_val(g0, ii));
                }
            }
            lemma_compute_deterministic(g0, gf);
            assert forall|j: int|
                0 <= j < gf.len() && (#[trigger] gf[j].value) is Some implies gf[j].value
                == node_val(gf, j) by {
                if j == ii {
                    assert(gf[j].value == r);
                } else {
                    assert(gf[j].value == gs[j].value);
                    assert(caches_ok(gs));
                    lemma_compute_deterministic(g0, gs);
                }
            }
            assert forall|j: int|
                0 <= j < g0.len() && !depends_on(g0, ii, j) implies (#[trigger] gf[j]).value
                == g0[j].value by {
                assert(depends_on(g0, ii, ii));
                assert(j != ii);
                assert(gf[j].value == gs[j].value);
            }
        }
        r
    }

    /// Invalidates node `i`: clears its cache slot and recursively clears
    /// the cache of every node that depends on it. Invalidation touches
    /// no node's stored structure, only cache slots, and it is the only
    /// mechanism that forces re-evaluation of an already-cached node.
    pub fn invalidate(&mut self, i: NodeId)
        requires
            old(self).wf(),
            i < old(self).nodes@.len(),
        ensures
            final(self).wf(),
            same_structure(old(self).nodes@, final(self).nodes@),
            forall|j: int|
                0 <= j < old(self).nodes@.len() ==> (#[trigger] final(self).nodes@[j]).value == (
                if depends_on(old(self).nodes@, j, i as int) {
                    None::<i64>
                } else {
                    old(self).nodes@[j].value
                }),
            old(self).cache_ok() ==> final(self).cache_ok(),
        decreases self.nodes@.len() - i, 1int,
    {
        self.nodes[i].value = None;
        let ghost gm = self.nodes@;
        proof {
            assert(same_structure(old(self).nodes@, gm));
            lemma_wf_same_structure(old(self).nodes@, gm);
        }
        self.invalidate_outputs(i);
        proof {
            let g0 = old(self).nodes@;
            let gf = self.nodes@;
            let ii = i as int;
            assert(same_structure(g0, gm));
            assert forall|j: int| 0 <= j < g0.len() implies (#[trigger] gf[j].value) == (
            if depends_on(g0, j, ii) {
                None::<i64>
            } else {
                g0[j].value
            }) by {
                if j == ii {
                    assert(depends_on(g0, j, ii));
                    assert(gm[j].value is None);
                } else if depends_on(g0, j, ii) {
                    lemma_depends_step(g0, j, ii);
                    let m = choose|m: int|
                        0 <= m < g0[ii].outputs@.len() && depends_on(
                            g0,
                            j,
                            #[trigger] g0[ii].outputs@[m] as int,
                        );
                    lemma_depends_structure(g0, gm, j, g0[ii].outputs@[m] as int);
                    assert(gm[ii].outputs@ == g0[ii].outputs@);
                    assert(0 <= m < gm[ii].outputs@.len() && depends_on(
                        gm,
                        j,
                        gm[ii].outputs@[m] as int,
                    ));
                } else {
                    assert forall|m2: int| 0 <= m2 < gm[ii].outputs@.len() implies !depends_on(
                        gm,
                        j,
                        (#[trigger] gm[ii].outputs@[m2]) as int,
                    ) by {
                        if depends_on(gm, j, gm[ii].outputs@[m2] as int) {
                            lemma_depends_structure(gm, g0, j, gm[ii].outputs@[m2] as int);
                            assert(gm[ii].outputs@ == g0[ii].outputs@);
                            lemma_output_depends(g0, ii, m2);
                            lemma_depends_trans(g0, j, g0[ii].outputs@[m2] as int, ii);
                            assert(false);
                        }
                    }
                    assert(gf[j].value == gm[j].value);
                    assert(gm[j].value == g0[j].value);
                }
            }
            if caches_ok(g0) {
                assert forall|j: int|
                    0 <= j < gf.len() && (#[trigger] gf[j].value) is Some implies gf[j].value
                    == node_val(gf, j) by {
                    assert(!depends_on(g0, j, ii));
                    assert forall|k: int| is_var_node(g0, k) && k != ii implies (
                    #[trigger] gf[k].value) == g0[k].value by {
                        if depends_on(g0, k, ii) && k != ii {
                            assert(node_wf(g0, k));
                            assert(g0[k].inputs@.len() == 0);
                        }
                    }
                    lemma_untouched_value(g0, gf, ii, j);
                    assert(g0[j].value == node_val(g0, j));
                }
            }
        }
    }

    /// Recursively invalidates every registered output of node `i`,
    /// leaving `i`'s own cache slot alone.
    fn invalidate_outputs(&mut self, i: NodeId)
        requires
            old(self).wf(),
            i < old(self).nodes@.len(),
        ensures
            final(self).wf(),
            same_structure(old(self).nodes@, final(self).nodes@),
            forall|j: int|
                0 <= j < old(self).nodes@.len() ==> (#[trigger] final(self).nodes@[j]).value == (
                if exists|m: int|
                    0 <= m < old(self).nodes@[i as int].outputs@.len() && depends_on(
                        old(self).nodes@,
                        j,
                        (#[trigger] old(self).nodes@[i as int].outputs@[m]) as int,
                    ) {
                    None::<i64>
                } else {
                    old(self).nodes@[j].value
                }),
        decreases self.nodes@.len() - i, 0int,
    {
        let n = self.nodes[i].outputs.len();
        let mut m: usize = 0;
        while m < n
            invariant
                self.wf(),
                i < self.nodes@.len(),
                same_structure(old(self).nodes@, self.nodes@),
                n == old(self).nodes@[i as int].outputs@.len(),
                m <= n,
                forall|j: int|
                    0 <= j < old(self).nodes@.len() ==> (#[trigger] self.nodes@[j]).value == (
                    if exists|m2: int|
                        0 <= m2 < m && depends_on(
                            old(self).nodes@,
                            j,
                            (#[trigger] old(self).nodes@[i as int].outputs@[m2]) as int,
                        ) {
                        None::<i64>
                    } else {
                        old(self).nodes@[j].value
                    }),
            decreases n - m,
        {
            let ghost g0 = old(self).nodes@;
            let ghost gc = self.nodes@;
            let ghost ii = i as int;
            let k = self.nodes[i].outputs[m];
            proof {
                assert(gc[ii].outputs@ == g0[ii].outputs@);
                assert(node_wf(gc, ii));
                assert(ii < k < gc.len());
            }
            self.invalidate(k);
            proof {
                let gn = self.nodes@;
                let kk = k as int;
                assert forall|j: int| 0 <= j < g0.len() implies (#[trigger] gn[j].value) == (
                if exists|m2: int|
                    0 <= m2 < m + 1 && depends_on(
                        g0,
                        j,
                        (#[trigger] g0[ii].outputs@[m2]) as int,
                    ) {
                    None::<i64>
                } else {
                    g0[j].value
                }) by {
                    if depends_on(gc, j, kk) {
                        lemma_depends_structure(gc, g0, j, kk);
                        assert(g0[ii].outputs@[m as int] as int == kk);
                        assert(0 <= m < m + 1 && depends_on(g0, j, g0[ii].outputs@[m as int] as int));
                        assert(gn[j].value is None);
                    } else {
                        assert(gn[j].value == gc[j].value);
                        if exists|m2: int|
                            0 <= m2 < m + 1 && depends_on(
                                g0,
                                j,
                                (#[trigger] g0[ii].outputs@[m2]) as int,
                            ) {
                            let m2 = choose|m2: int|
                                0 <= m2 < m + 1 && depends_on(
                                    g0,
                                    j,
                                    (#[trigger] g0[ii].outputs@[m2]) as int,
                                );
                            if m2 == m {
                                lemma_depends_structure(g0, gc, j, kk);
                                assert(false);
                            } else {
                                assert(0 <= m2 < m && depends_on(
                                    g0,
                                    j,
                                    g0[ii].outputs@[m2] as int,
                                ));
                                assert(gc[j].value is None);
                            }
                        } else {
                            assert(gc[j].value == g0[j].value);
                        }
                    }
                }
            }
            m = m + 1;
        }
    }
}

/// A graph stays well-formed when one node is appended: the new node must
/// be locally well-formed with no outputs yet, existing nodes keep their
/// expressions and inputs, and the only change to existing back-edge sets
/// is that the inputs of the new node now list it as an output.
pub proof fn lemma_add_node_wf(g1: Seq<Node>, g2: Seq<Node>, i: int)
    requires
        graph_wf(g1),
        i == g1.len(),
        g2.len() == g1.len() + 1,
        node_wf(g2, i),
        g2[i].outputs@.len() == 0,
        forall|j: int|
            0 <= j < g1.len() ==> (#[trigger] g2[j]).expr == g1[j].expr && g2[j].inputs@
                == g1[j].inputs@,
        forall|j: int, y: int|
            0 <= j < g1.len() ==> (#[trigger] has_output(g2, j, y) <==> (has_output(g1, j, y) || (y
                == i && has_input(g2, i, j)))),
    ensures
        graph_wf(g2),
{
    assert forall|j: int| 0 <= j < g2.len() implies node_wf(g2, j) by {
        if j < g1.len() {
            assert(node_wf(g1, j));
            assert forall|m: int| 0 <= m < g2[j].outputs@.len() implies j < (
            #[trigger] g2[j].outputs@[m]) < g2.len() by {
                let y = g2[j].outputs@[m] as int;
                assert(has_output(g2, j, y));
                if has_output(g1, j, y) {
                    let m1 = choose|m1: int|
                        0 <= m1 < g1[j].outputs@.len() && g1[j].outputs@[m1] as int == y;
                    assert(j < g1[j].outputs@[m1] < g1.len());
                } else {
                    assert(y == i);
                }
            }
        }
    }
    assert forall|a: int, b: int| 0 <= a < g2.len() && 0 <= b < g2.len() implies (
    #[trigger] has_input(g2, b, a) <==> #[trigger] has_output(g2, a, b)) by {
        if a < g1.len() && b < g1.len() {
            assert(has_input(g2, b, a) == has_input(g1, b, a));
            assert(has_input(g1, b, a) <==> has_output(g1, a, b));
            assert(!(b == i));
            assert(has_output(g2, a, b) <==> has_output(g1, a, b));
        } else if a < g1.len() && b == i {
            assert(node_wf(g1, a));
            assert forall|m: int| 0 <= m < g1[a].outputs@.len() implies g1[a].outputs@[m] as int
                != b by {
                assert(g1[a].outputs@[m] < g1.len());
            }
            assert(!has_output(g1, a, b));
            assert(has_output(g2, a, b) <==> has_input(g2, i, a));
        } else if a == i && b < g1.len() {
            assert(!has_output(g2, a, b));
            assert(node_wf(g1, b));
            assert(g2[b].inputs@ == g1[b].inputs@);
            assert forall|m: int| 0 <= m < g2[b].inputs@.len() implies g2[b].inputs@[m] as int
                != a by {
                assert(g1[b].inputs@[m] < b);
            }
            assert(!has_input(g2, b, a));
        } else {
            assert(a == i && b == i);
            assert(!has_output(g2, a, b));
            assert forall|m: int| 0 <= m < g2[b].inputs@.len() implies g2[b].inputs@[m] as int
                != a by {
                assert(g2[b].inputs@[m] < b);
            }
            assert(!has_input(g2, b, a));
        }
    }
}

/// Appending nodes (and touching nothing but `outputs` lists of existing
/// nodes) leaves the value of every existing node unchanged: a node's
/// value reads only expressions, input edges and leaf values at indices
/// no larger than its own.
pub proof fn lemma_val_extend_one(g1: Seq<Node>, g2: Seq<Node>, j: int)
    requires
        g1.len() <= g2.len(),
        forall|k: int|
            0 <= k < g1.len() ==> (#[trigger] g2[k]).expr == g1[k].expr && g2[k].inputs@
                == g1[k].inputs@ && g2[k].value == g1[k].value,
        0 <= j < g1.len(),
    ensures
        node_val(g2, j) == node_val(g1, j),
    decreases j,
{
    match g1[j].expr {
        Expr::Literal(_) => {},
        Expr::Var(_) => {},
        Expr::Unary(_) => {
            if g1[j].inputs@.len() == 1 && g1[j].inputs@[0] < j {
                lemma_val_extend_one(g1, g2, g1[j].inputs@[0] as int);
            }
        },
        Expr::Binary(_) => {
            if g1[j].inputs@.len() == 2 && g1[j].inputs@[0] < j && g1[j].inputs@[1] < j {
                lemma_val_extend_one(g1, g2, g1[j].inputs@[0] as int);
                lemma_val_extend_one(g1, g2, g1[j].inputs@[1] as int);
            }
        },
    }
}

/// Well-formedness reads only the graph's structure, never its cache
/// slots.
pub proof fn lemma_wf_same_structure(g1: Seq<Node>, g2: Seq<Node>)
    requires
        graph_wf(g1),
        same_structure(g1, g2),
    ensures
        graph_wf(g2),
{
    assert forall|j: int| 0 <= j < g2.len() implies node_wf(g2, j) by {
        assert(node_wf(g1, j));
        assert(g2[j].inputs@ == g1[j].inputs@);
        assert(g2[j].outputs@ == g1[j].outputs@);
    }
    assert forall|a: int, b: int| 0 <= a < g2.len() && 0 <= b < g2.len() implies (
    #[trigger] has_input(g2, b, a) <==> #[trigger] has_output(g2, a, b)) by {
        assert(g2[a].outputs@ == g1[a].outputs@);
        assert(g2[b].inputs@ == g1[b].inputs@);
        assert(has_input(g2, b, a) == has_input(g1, b, a));
        assert(has_output(g2, a, b) == has_output(g1, a, b));
        assert(has_input(g1, b, a) <==> has_output(g1, a, b));
    }
}

/// Dependency is transitive: if `a` depends on `b` and `b` on `c`, then
/// `a` depends on `c`.
pub proof fn lemma_depends_trans(g: Seq<Node>, a: int, b: int, c: int)
    requires
        depends_on(g, a, b),
        depends_on(g, b, c),
    ensures
        depends_on(g, a, c),
    decreases a,
{
    if a != b {
        let m = choose|m: int|
            0 <= m < g[a].inputs@.len() && (#[trigger] g[a].inputs@[m]) < a && depends_on(
                g,
                g[a].inputs@[m] as int,
                b,
            );
        lemma_depends_trans(g, g[a].inputs@[m] as int, b, c);
    }
}

/// Dependency reads only the graph's structure, never its cache slots.
pub proof fn lemma_depends_structure(g1: Seq<Node>, g2: Seq<Node>, a: int, b: int)
    requires
        g1.len() == g2.len(),
        forall|j: int| 0 <= j < g1.len() ==> (#[trigger] g2[j]).inputs@ == g1[j].inputs@,
        depends_on(g1, a, b),
    ensures
        depends_on(g2, a, b),
    decreases a,
{
    if a != b {
        let m = choose|m: int|
            0 <= m < g1[a].inputs@.len() && (#[trigger] g1[a].inputs@[m]) < a && depends_on(
                g1,
                g1[a].inputs@[m] as int,
                b,
            );
        lemma_depends_structure(g1, g2, g1[a].inputs@[m] as int, b);
        assert(g2[a].inputs@[m] == g1[a].inputs@[m]);
    }
}

/// A node's value depends only on the structure of the graph and on the
/// values stored at the named-input leaves it transitively reads.
pub proof fn lemma_val_congruence(g1: Seq<Node>, g2: Seq<Node>, j: int)
    requires
        g1.len() == g2.len(),
        forall|k: int|
            0 <= k < g1.len() ==> (#[trigger] g2[k]).expr == g1[k].expr && g2[k].inputs@
                == g1[k].inputs@,
        forall|k: int|
            depends_on(g1, j, k) && is_var_node(g1, k) ==> (#[trigger] g2[k]).value == g1[k].value,
    ensures
        node_val(g2, j) == node_val(g1, j),
    decreases j,
{
    if 0 <= j < g1.len() {
        match g1[j].expr {
            Expr::Literal(_) => {},
            Expr::Var(_) => {
                assert(depends_on(g1, j, j));
                assert(is_var_node(g1, j));
            },
            Expr::Unary(_) => {
                if g1[j].inputs@.len() == 1 && g1[j].inputs@[0] < j {
                    let k0 = g1[j].inputs@[0] as int;
                    assert(depends_on(g1, j, k0)) by {
                        assert(0 <= 0 < g1[j].inputs@.len() && (g1[j].inputs@[0]) < j
                            && depends_on(g1, g1[j].inputs@[0] as int, k0));
                    }
                    assert forall|k: int|
                        depends_on(g1, k0, k) && is_var_node(g1, k) implies (
                    #[trigger] g2[k]).value == g1[k].value by {
                        lemma_depends_trans(g1, j, k0, k);
                    }
                    lemma_val_congruence(g1, g2, k0);
                }
            },
            Expr::Binary(_) => {
                if g1[j].inputs@.len() == 2 && g1[j].inputs@[0] < j && g1[j].inputs@[1] < j {
                    let k0 = g1[j].inputs@[0] as int;
                    let k1 = g1[j].inputs@[1] as int;
                    assert(depends_on(g1, j, k0)) by {
                        assert(0 <= 0 < g1[j].inputs@.len() && (g1[j].inputs@[0]) < j
                            && depends_on(g1, g1[j].inputs@[0] as int, k0));
                    }
                    assert(depends_on(g1, j, k1)) by {
                        assert(0 <= 1 < g1[j].inputs@.len() && (g1[j].inputs@[1]) < j
                            && depends_on(g1, g1[j].inputs@[1] as int, k1));
                    }
                    assert forall|k: int|
                        depends_on(g1, k0, k) && is_var_node(g1, k) implies (
                    #[trigger] g2[k]).value == g1[k].value by {
                        lemma_depends_trans(g1, j, k0, k);
                    }
                    lemma_val_congruence(g1, g2, k0);
                    assert forall|k: int|
                        depends_on(g1, k1, k) && is_var_node(g1, k) implies (
                    #[trigger] g2[k]).value == g1[k].value by {
                        lemma_depends_trans(g1, j, k1, k);
                    }
                    lemma_val_congruence(g1, g2, k1);
                }
            },
        }
    }
}

/// Determinism. Evaluation is a pure function of the graph's structure
/// and the values of its named inputs: two states that agree on both give
/// every node the same value. In particular, repeated `compute` calls
/// without an intervening `set` or `clear` — which preserve structure and
/// named-input values — return the identical value every time.
pub proof fn lemma_compute_deterministic(g1: Seq<Node>, g2: Seq<Node>)
    requires
        same_structure(g1, g2),
        vars_preserved(g1, g2),
    ensures
        forall|j: int| node_val(g1, j) == node_val(g2, j),
{
    assert forall|j: int| node_val(g1, j) == node_val(g2, j) by {
        lemma_val_congruence(g1, g2, j);
    }
}

/// Cache soundness for untouched nodes. A mutation of the named input `v`
/// leaves the value of every node that does not depend on `v` unchanged,
/// so such a node's retained cache entry stays sound.
pub proof fn lemma_untouched_value(g1: Seq<Node>, g2: Seq<Node>, v: int, j: int)
    requires
        g1.len() == g2.len(),
        forall|k: int|
            0 <= k < g1.len() ==> (#[trigger] g2[k]).expr == g1[k].expr && g2[k].inputs@
                == g1[k].inputs@,
        forall|k: int|
            is_var_node(g1, k) && k != v ==> (#[trigger] g2[k]).value == g1[k].value,
        !depends_on(g1, j, v),
    ensures
        node_val(g2, j) == node_val(g1, j),
{
    assert forall|k: int|
        depends_on(g1, j, k) && is_var_node(g1, k) implies (#[trigger] g2[k]).value
        == g1[k].value by {
        if k == v {
            assert(depends_on(g1, j, v));
        }
    }
    lemma_val_congruence(g1, g2, j);
}

/// If `j` strictly depends on `i`, the dependency passes through one of
/// `i`'s registered outputs: there is a consumer of `i` that `j` depends
/// on. This is what lets invalidation reach every dependent node by
/// walking back-edges.
pub proof fn lemma_depends_step(g: Seq<Node>, j: int, i: int)
    requires
        graph_wf(g),
        0 <= i < g.len(),
        0 <= j < g.len(),
        depends_on(g, j, i),
        j != i,
    ensures
        exists|m: int|
            0 <= m < g[i].outputs@.len() && depends_on(g, j, #[trigger] g[i].outputs@[m] as int),
    decreases j,
{
    let m0 = choose|m0: int|
        0 <= m0 < g[j].inputs@.len() && (#[trigger] g[j].inputs@[m0]) < j && depends_on(
            g,
            g[j].inputs@[m0] as int,
            i,
        );
    let k = g[j].inputs@[m0] as int;
    if k == i {
        assert(has_input(g, j, i));
        assert(has_output(g, i, j));
        let m = choose|m: int| 0 <= m < g[i].outputs@.len() && g[i].outputs@[m] as int == j;
        assert(depends_on(g, j, g[i].outputs@[m] as int));
    } else {
        lemma_depends_step(g, k, i);
        let m = choose|m: int|
            0 <= m < g[i].outputs@.len() && depends_on(g, k, #[trigger] g[i].outputs@[m] as int);
        assert(depends_on(g, j, g[i].outputs@[m] as int)) by {
            assert(0 <= m0 < g[j].inputs@.len() && (g[j].inputs@[m0]) < j && depends_on(
                g,
                g[j].inputs@[m0] as int,
                g[i].outputs@[m] as int,
            ));
        }
    }
}

/// Unavailability propagation. A unary or binary node is unavailable if
/// and only if at least one of its inputs is unavailable.
pub proof fn lemma_unavailability(g: Seq<Node>, i: int)
    requires
        graph_wf(g),
        0 <= i < g.len(),
        g[i].expr is Unary || g[i].expr is Binary,
    ensures
        (node_val(g, i) is None) <==> (exists|m: int|
            0 <= m < g[i].inputs@.len() && node_val(g, (#[trigger] g[i].inputs@[m]) as int) is None),
{
    assert(node_wf(g, i));
    match g[i].expr {
        Expr::Unary(_) => {
            assert(g[i].inputs@.len() == 1);
            assert(g[i].inputs@[0] < i);
            if node_val(g, g[i].inputs@[0] as int) is None {
                assert(0 <= 0 < g[i].inputs@.len() && node_val(g, g[i].inputs@[0] as int) is None);
            }
        },
        Expr::Binary(_) => {
            assert(g[i].inputs@.len() == 2);
            assert(g[i].inputs@[0] < i);
            assert(g[i].inputs@[1] < i);
            if node_val(g, g[i].inputs@[0] as int) is None {
                assert(0 <= 0 < g[i].inputs@.len() && node_val(g, g[i].inputs@[0] as int) is None);
            } else if node_val(g, g[i].inputs@[1] as int) is None {
                assert(0 <= 1 < g[i].inputs@.len() && node_val(g, g[i].inputs@[1] as int) is None);
            }
        },
        _ => {},
    }
}

/// Every registered output of `i` depends on `i`.
pub proof fn lemma_output_depends(g: Seq<Node>, i: int, m: int)
    requires
        graph_wf(g),
        0 <= i < g.len(),
        0 <= m < g[i].outputs@.len(),
    ensures
        depends_on(g, g[i].outputs@[m] as int, i),
{
    let k = g[i].outputs@[m] as int;
    assert(node_wf(g, i));
    assert(i < k < g.len());
    assert(has_output(g, i, k));
    assert(has_input(g, k, i));
    let m1 = choose|m1: int| 0 <= m1 < g[k].inputs@.len() && g[k].inputs@[m1] as int == i;
    assert(node_wf(g, k));
    assert(g[k].inputs@[m1] < k);
    assert(depends_on(g, i, i));
    assert(depends_on(g, k, i)) by {
        assert(0 <= m1 < g[k].inputs@.len() && (g[k].inputs@[m1]) < k && depends_on(
            g,
            g[k].inputs@[m1] as int,
            i,
        ));
    }
}

/// `lemma_val_extend_one`, for every existing node at once.
pub proof fn lemma_val_extend(g1: Seq<Node>, g2: Seq<Node>)
    requires
        g1.len() <= g2.len(),
        forall|k: int|
            0 <= k < g1.len() ==> (#[trigger] g2[k]).expr == g1[k].expr && g2[k].inputs@
                == g1[k].inputs@ && g2[k].value == g1[k].value,
    ensures
        forall|j: int| 0 <= j < g1.len() ==> node_val(g2, j) == node_val(g1, j),
{
    assert forall|j: int| 0 <= j < g1.len() implies node_val(g2, j) == node_val(g1, j) by {
        lemma_val_extend_one(g1, g2, j);
    }
}

} // verus!
