//! The evaluation contract: produce the current value, using the cache
//! when it is valid.

use vstd::prelude::*;

use crate::node::{lemma_compute_deterministic, node_val, Graph, NodeId};

verus! {

/// Trait for "computable" types: containers of nodes whose current value
/// can be read on demand.
pub trait Compute {
    /// Node `i` may be computed in the current state.
    spec fn computable(&self, i: NodeId) -> bool;

    /// The value that computing node `i` must produce in the current
    /// state.
    spec fn value_at(&self, i: NodeId) -> Option<i64>;

    /// The cache slot of node `i` in the current state.
    spec fn cache_at(&self, i: NodeId) -> Option<i64>;

    /// How many nodes the container holds.
    spec fn node_count(&self) -> nat;

    /// Produces the current value of node `i`, using the cache when
    /// valid, and caches the outcome. A cache hit is pure: it changes no
    /// cache slot at all.
    fn compute(&mut self, i: NodeId) -> (r: Option<i64>)
        requires
            old(self).computable(i),
        ensures
            final(self).computable(i),
            r == old(self).value_at(i),
            final(self).value_at(i) == old(self).value_at(i),
            old(self).cache_at(i) is Some ==> forall|j: NodeId|
                j < old(self).node_count() ==> (#[trigger] final(self).cache_at(j))
                    == old(self).cache_at(j),
    ;
}

impl Compute for Graph {
    /// A graph node is computable when the graph is well-formed, its
    /// caches are sound, and the index is in range.
    open spec fn computable(&self, i: NodeId) -> bool {
        self.wf() && self.cache_ok() && i < self.nodes@.len()
    }

    /// The value a compute call must produce: the node's current value,
    /// fully determined by the graph's structure and its named inputs.
    open spec fn value_at(&self, i: NodeId) -> Option<i64> {
        node_val(self.nodes@, i as int)
    }

    /// The cache slot of node `i`.
    open spec fn cache_at(&self, i: NodeId) -> Option<i64> {
        self.nodes@[i as int].value
    }

    /// The number of nodes in the graph.
    open spec fn node_count(&self) -> nat {
        self.nodes@.len()
    }

    fn compute(&mut self, i: NodeId) -> (r: Option<i64>) {
        let r = Graph::compute(self, i);
        proof {
            lemma_compute_deterministic(old(self).nodes@, self.nodes@);
        }
        r
    }
}

} // verus!
