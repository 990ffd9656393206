//! The restricted handle onto a named-input node.

use vstd::prelude::*;

use crate::node::{
    caches_ok, depends_on, is_var_node, lemma_untouched_value, lemma_wf_same_structure, node_val,
    node_wf, same_structure, Graph, NodeId,
};

verus! {

/// A handle onto one named-input node, granting the right to set or
/// clear its value. Converting the handle into a plain node index (for
/// composing it into larger expressions) is one-way: the index grants no
/// mutation rights.
#[derive(Clone, Copy)]
pub struct Var {
    /// The index of the underlying named-input node.
    pub id: NodeId,
}

impl Var {
    /// The underlying node index, for use as an input of other nodes.
    pub fn as_node_ref(&self) -> (i: NodeId)
        ensures
            i == self.id,
    {
        self.id
    }

    /// Sets a new value for the named input: first invalidates the leaf
    /// node (clearing the cache of every node depending on it), then
    /// stores `x` directly into the leaf's cache slot.
    pub fn set(&self, g: &mut Graph, x: i64)
        requires
            old(g).wf(),
            old(g).cache_ok(),
            self.id < old(g).nodes@.len(),
            old(g).nodes@[self.id as int].expr is Var,
        ensures
            final(g).wf(),
            final(g).cache_ok(),
            same_structure(old(g).nodes@, final(g).nodes@),
            forall|j: int|
                0 <= j < old(g).nodes@.len() ==> (#[trigger] final(g).nodes@[j]).value == (if j
                    == self.id as int {
                    Some(x)
                } else if depends_on(old(g).nodes@, j, self.id as int) {
                    None::<i64>
                } else {
                    old(g).nodes@[j].value
                }),
            node_val(final(g).nodes@, self.id as int) == Some(x),
    {
        let v = self.id;
        g.invalidate(v);
        let ghost gm = g.nodes@;
        g.nodes[v].value = Some(x);
        proof {
            let g0 = old(g).nodes@;
            let gf = g.nodes@;
            let vi = v as int;
            assert(same_structure(g0, gf));
            lemma_wf_same_structure(g0, gf);
            assert(gf[vi].expr is Var);
            assert(node_val(gf, vi) == Some(x));
            assert forall|k: int|
                is_var_node(g0, k) && k != vi implies (#[trigger] gf[k].value) == g0[k].value by {
                if depends_on(g0, k, vi) && k != vi {
                    assert(node_wf(g0, k));
                    assert(g0[k].inputs@.len() == 0);
                }
            }
            assert forall|j: int|
                0 <= j < gf.len() && (#[trigger] gf[j].value) is Some implies gf[j].value
                == node_val(gf, j) by {
                if j != vi {
                    assert(!depends_on(g0, j, vi));
                    assert(gf[j].value == g0[j].value);
                    assert(caches_ok(g0));
                    lemma_untouched_value(g0, gf, vi, j);
                }
            }
        }
    }

    /// Clears the named input by invalidating the leaf node: the leaf and
    /// every node depending on it lose their cached value, so subsequent
    /// reads report "not available" until `set` is called again.
    pub fn clear(&self, g: &mut Graph)
        requires
            old(g).wf(),
            old(g).cache_ok(),
            self.id < old(g).nodes@.len(),
        ensures
            final(g).wf(),
            final(g).cache_ok(),
            same_structure(old(g).nodes@, final(g).nodes@),
            forall|j: int|
                0 <= j < old(g).nodes@.len() ==> (#[trigger] final(g).nodes@[j]).value == (
                if depends_on(old(g).nodes@, j, self.id as int) {
                    None::<i64>
                } else {
                    old(g).nodes@[j].value
                }),
            final(g).nodes@[self.id as int].value is None,
    {
        g.invalidate(self.id);
        proof {
            assert(depends_on(old(g).nodes@, self.id as int, self.id as int));
        }
    }
}

} // verus!
