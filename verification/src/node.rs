use vstd::prelude::*;

use crate::precedence_graph::PrecedenceGraph;

verus! {

/// A vertex record in a graph's arena: the user-assigned identifier value
/// together with the lists of direct successors and direct predecessors,
/// stored as handles (indices into the owning graph's arena).
pub struct Node {
    pub val: u128,
    pub succ: Vec<usize>,
    pub pred: Vec<usize>,
}

impl Node {
    /// Every node reachable by following one or more successor edges,
    /// depth-first and pre-order: for each direct successor, the successor
    /// itself followed by its own transitive successors. Not deduplicated:
    /// a node reachable along two distinct paths appears once per path.
    pub fn all_successors(&self, graph: &PrecedenceGraph) -> (r: Vec<u128>)
        requires
            graph.wf(),
            graph.contains_val(self.val),
        ensures
            r@ == graph.succ_vals(graph.handle_of(self.val)),
    {
        let h = graph.find_handle(self.val);
        graph.all_succs_from(h, graph.node_count())
    }

    /// Symmetric to `all_successors`, following predecessor edges.
    pub fn all_predecessor(&self, graph: &PrecedenceGraph) -> (r: Vec<u128>)
        requires
            graph.wf(),
            graph.contains_val(self.val),
        ensures
            r@ == graph.pred_vals(graph.handle_of(self.val)),
    {
        let h = graph.find_handle(self.val);
        graph.all_preds_from(h, graph.node_count())
    }

    /// The deduplicated union of this node, its transitive predecessors and
    /// its transitive successors: the set of nodes comparable to it under
    /// the transitive closure of the relation.
    pub fn comparable(&self, graph: &PrecedenceGraph) -> (r: Vec<u128>)
        requires
            graph.wf(),
            graph.contains_val(self.val),
        ensures
            r@.no_duplicates(),
            forall|v: u128| #[trigger] r@.contains(v) <==> graph.comparable_val(
                graph.handle_of(self.val),
                v,
            ),
    {
        let h = graph.find_handle(self.val);
        graph.comparable_from(h)
    }

    /// Membership of `node` in this node's comparability set.
    pub fn is_comparable(&self, graph: &PrecedenceGraph, node: &Node) -> (r: bool)
        requires
            graph.wf(),
            graph.contains_val(self.val),
        ensures
            r == graph.comparable_val(graph.handle_of(self.val), node.val),
    {
        let c = self.comparable(graph);
        crate::precedence_graph::vec_contains_val(&c, node.val)
    }

    /// Starting here, repeatedly look at the direct successors whose value
    /// is not in `excluded`: more than one such successor is a branch
    /// (false); otherwise advance to the single one, if any, until no
    /// qualifying successor remains (true).
    pub fn is_succ_linear_order_without(
        &self,
        graph: &PrecedenceGraph,
        excluded: &Vec<u128>,
    ) -> (r: bool)
        requires
            graph.wf(),
            graph.contains_val(self.val),
        ensures
            r == graph.spec_chain_ok(graph.handle_of(self.val), excluded@),
    {
        let h = graph.find_handle(self.val);
        graph.chain_walk(h, excluded)
    }
}

} // verus!
