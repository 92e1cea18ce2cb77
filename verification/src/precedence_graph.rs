use vstd::prelude::*;

use crate::node::Node;

verus! {

broadcast use vstd::seq_lib::lemma_seq_contains_after_push, vstd::seq_lib::lemma_seq_concat_contains_all_elements, vstd::seq_lib::seq_to_set_is_finite;

/// The one failure construction can report: an edge names an identifier
/// that is absent from the declared node universe.
#[derive(Debug)]
pub enum PrecedenceGraphError {
    EdgeContainsNonexistentNode { node: u128 },
}

/// A finite precedence relation. The arena owns one record per declared
/// node identifier; successor and predecessor lists hold arena handles.
/// Immutable after construction.
pub struct PrecedenceGraph {
    pub arena: Vec<Node>,
}

impl PrecedenceGraph {
    /// Number of declared nodes.
    pub open spec fn n(self) -> int {
        self.arena@.len() as int
    }

    pub open spec fn in_range(self, h: int) -> bool {
        0 <= h < self.n()
    }

    /// The identifier value of the node at handle `h`.
    pub open spec fn val_of(self, h: int) -> u128 {
        self.arena@[h].val
    }

    pub open spec fn succ_handles(self, h: int) -> Seq<usize> {
        self.arena@[h].succ@
    }

    pub open spec fn pred_handles(self, h: int) -> Seq<usize> {
        self.arena@[h].pred@
    }

    /// There is a direct edge from the node at `u` to the node at `v`.
    pub open spec fn edge(self, u: int, v: int) -> bool {
        self.in_range(u) && self.in_range(v) && self.succ_handles(u).contains(v as usize)
    }

    /// There is a direct edge from the node valued `a` to the node valued `b`.
    pub open spec fn edge_vals(self, a: u128, b: u128) -> bool {
        exists|u: int, v: int|
            #[trigger] self.edge(u, v) && self.val_of(u) == a && self.val_of(v) == b
    }

    pub open spec fn node_ok(self, h: int) -> bool {
        &&& (forall|k: int|
            0 <= k < self.succ_handles(h).len() ==> (#[trigger] self.succ_handles(h)[k]) < self.arena@.len())
        &&& (forall|k: int|
            0 <= k < self.pred_handles(h).len() ==> (#[trigger] self.pred_handles(h)[k]) < self.arena@.len())
        &&& self.succ_handles(h).no_duplicates()
        &&& self.pred_handles(h).no_duplicates()
    }

    /// Well-formedness: handles stay inside the arena, identifier values are
    /// unique, successor and predecessor lists are duplicate-free, and the
    /// two edge directions mirror each other exactly.
    pub open spec fn wf(self) -> bool {
        &&& (forall|h: int| self.in_range(h) ==> #[trigger] self.node_ok(h))
        &&& (forall|h1: int, h2: int|
            self.in_range(h1) && self.in_range(h2) && h1 != h2 ==> #[trigger] self.val_of(h1)
                != #[trigger] self.val_of(h2))
        &&& (forall|u: int, v: int|
            self.in_range(u) && self.in_range(v) ==> (#[trigger] self.succ_handles(u).contains(
                v as usize,
            ) <==> #[trigger] self.pred_handles(v).contains(u as usize)))
    }

    /// The identifier `v` is one of the declared nodes.
    pub open spec fn contains_val(self, v: u128) -> bool {
        exists|h: int| self.in_range(h) && #[trigger] self.val_of(h) == v
    }

    /// The handle of the node valued `v` (unique in a well-formed graph).
    pub open spec fn handle_of(self, v: u128) -> int {
        choose|h: int| self.in_range(h) && #[trigger] self.val_of(h) == v
    }

    /// The identifier sequence emitted by walking successor edges from `h`
    /// depth-first and pre-order, expanding at most `fuel` edges deep. Every
    /// path contributes separately: nothing is deduplicated. On an acyclic
    /// graph no chain is longer than the node count, so a fuel of the node
    /// count yields the full traversal.
    pub open spec fn succs_from(self, h: int, fuel: nat) -> Seq<u128>
        decreases fuel, 0int,
    {
        if fuel == 0 {
            Seq::empty()
        } else {
            self.succs_of_list(self.succ_handles(h), (fuel - 1) as nat)
        }
    }

    pub open spec fn succs_of_list(self, hs: Seq<usize>, fuel: nat) -> Seq<u128>
        decreases fuel, hs.len(),
    {
        if hs.len() == 0 {
            Seq::empty()
        } else {
            self.succs_of_list(hs.drop_last(), fuel) + seq![self.val_of(hs.last() as int)]
                + self.succs_from(hs.last() as int, fuel)
        }
    }

    /// Symmetric to `succs_from`, walking predecessor edges.
    pub open spec fn preds_from(self, h: int, fuel: nat) -> Seq<u128>
        decreases fuel, 0int,
    {
        if fuel == 0 {
            Seq::empty()
        } else {
            self.preds_of_list(self.pred_handles(h), (fuel - 1) as nat)
        }
    }

    pub open spec fn preds_of_list(self, hs: Seq<usize>, fuel: nat) -> Seq<u128>
        decreases fuel, hs.len(),
    {
        if hs.len() == 0 {
            Seq::empty()
        } else {
            self.preds_of_list(hs.drop_last(), fuel) + seq![self.val_of(hs.last() as int)]
                + self.preds_from(hs.last() as int, fuel)
        }
    }

    /// The full transitive-successor traversal of the node at `h`.
    pub open spec fn succ_vals(self, h: int) -> Seq<u128> {
        self.succs_from(h, self.arena@.len() as nat)
    }

    /// The full transitive-predecessor traversal of the node at `h`.
    pub open spec fn pred_vals(self, h: int) -> Seq<u128> {
        self.preds_from(h, self.arena@.len() as nat)
    }

    /// `v` is comparable to the node at `h`: equal to it, or an ancestor or
    /// a descendant of it under the transitive closure of the relation.
    pub open spec fn comparable_val(self, h: int, v: u128) -> bool {
        v == self.val_of(h) || self.succ_vals(h).contains(v) || self.pred_vals(h).contains(v)
    }

    /// The handles among `hs` whose node value is not in `ex`.
    pub open spec fn qual_of_list(self, hs: Seq<usize>, ex: Seq<u128>) -> Seq<usize>
        decreases hs.len(),
    {
        if hs.len() == 0 {
            Seq::empty()
        } else {
            let rest = self.qual_of_list(hs.drop_last(), ex);
            if !ex.contains(self.val_of(hs.last() as int)) {
                rest.push(hs.last())
            } else {
                rest
            }
        }
    }

    /// The direct successors of the node at `h` whose value is not in `ex`.
    pub open spec fn qualifying(self, h: int, ex: Seq<u128>) -> Seq<usize> {
        self.qual_of_list(self.succ_handles(h), ex)
    }

    /// The chain walk of `is_succ_linear_order_without`, bounded by `fuel`
    /// steps: look at the direct successors outside `ex`; more than one is a
    /// branch (false); none ends the walk (true); otherwise advance to the
    /// single one. On an acyclic graph a fuel of the node count is never
    /// exhausted.
    pub open spec fn chain_from(self, h: int, ex: Seq<u128>, fuel: nat) -> bool
        decreases fuel,
    {
        let q = self.qualifying(h, ex);
        if q.len() > 1 {
            false
        } else if q.len() == 0 {
            true
        } else if fuel == 0 {
            true
        } else {
            self.chain_from(q[0] as int, ex, (fuel - 1) as nat)
        }
    }

    /// The portion of the successor subtree of the node at `h` that lies
    /// outside `ex` is a simple chain (the walk never branches).
    pub open spec fn spec_chain_ok(self, h: int, ex: Seq<u128>) -> bool {
        self.chain_from(h, ex, self.arena@.len() as nat)
    }

    /// The identifier of every node, in arena order.
    pub open spec fn val_seq(self) -> Seq<u128> {
        self.arena@.map_values(|nd: Node| nd.val)
    }

    /// Every identifier a traversal from `h` emits is a declared node.
    proof fn lemma_succs_from_vals(self, h: int, fuel: nat)
        requires
            self.wf(),
            self.in_range(h),
        ensures
            forall|v: u128| #[trigger] self.succs_from(h, fuel).contains(v) ==> self.contains_val(v),
        decreases fuel, 0int,
    {
        if fuel > 0 {
            assert(self.node_ok(h));
            self.lemma_succs_of_list_vals(self.succ_handles(h), (fuel - 1) as nat);
            assert(self.succs_from(h, fuel) == self.succs_of_list(
                self.succ_handles(h),
                (fuel - 1) as nat,
            ));
        } else {
            assert(self.succs_from(h, fuel) =~= Seq::<u128>::empty());
        }
    }

    proof fn lemma_succs_of_list_vals(self, hs: Seq<usize>, fuel: nat)
        requires
            self.wf(),
            forall|k: int| 0 <= k < hs.len() ==> (#[trigger] hs[k]) < self.arena@.len(),
        ensures
            forall|v: u128| #[trigger] self.succs_of_list(hs, fuel).contains(v) ==> self.contains_val(v),
        decreases fuel, hs.len(),
    {
        if hs.len() > 0 {
            assert(forall|k: int|
                0 <= k < hs.drop_last().len() ==> (#[trigger] hs.drop_last()[k]) < self.arena@.len());
            self.lemma_succs_of_list_vals(hs.drop_last(), fuel);
            let last = hs.last() as int;
            assert(0 <= last < self.arena@.len());
            self.lemma_succs_from_vals(last, fuel);
            assert forall|v: u128|
                #[trigger] self.succs_of_list(hs, fuel).contains(v) implies self.contains_val(v) by {
                let a = self.succs_of_list(hs.drop_last(), fuel);
                let mid = seq![self.val_of(last)];
                let c = self.succs_from(last, fuel);
                assert(self.succs_of_list(hs, fuel) == a + mid + c);
                assert((a + mid + c).contains(v));
                if a.contains(v) {
                } else if c.contains(v) {
                } else {
                    assert(mid.contains(v));
                    let i = choose|i: int| 0 <= i < mid.len() && mid[i] == v;
                    assert(i == 0);
                    assert(v == self.val_of(last));
                    assert(self.in_range(last));
                    assert(self.contains_val(v));
                }
            }
        }
    }

    /// Every identifier a predecessor traversal from `h` emits is declared.
    proof fn lemma_preds_from_vals(self, h: int, fuel: nat)
        requires
            self.wf(),
            self.in_range(h),
        ensures
            forall|v: u128| #[trigger] self.preds_from(h, fuel).contains(v) ==> self.contains_val(v),
        decreases fuel, 0int,
    {
        if fuel > 0 {
            assert(self.node_ok(h));
            self.lemma_preds_of_list_vals(self.pred_handles(h), (fuel - 1) as nat);
            assert(self.preds_from(h, fuel) == self.preds_of_list(
                self.pred_handles(h),
                (fuel - 1) as nat,
            ));
        } else {
            assert(self.preds_from(h, fuel) =~= Seq::<u128>::empty());
        }
    }

    proof fn lemma_preds_of_list_vals(self, hs: Seq<usize>, fuel: nat)
        requires
            self.wf(),
            forall|k: int| 0 <= k < hs.len() ==> (#[trigger] hs[k]) < self.arena@.len(),
        ensures
            forall|v: u128| #[trigger] self.preds_of_list(hs, fuel).contains(v) ==> self.contains_val(v),
        decreases fuel, hs.len(),
    {
        if hs.len() > 0 {
            assert(forall|k: int|
                0 <= k < hs.drop_last().len() ==> (#[trigger] hs.drop_last()[k]) < self.arena@.len());
            self.lemma_preds_of_list_vals(hs.drop_last(), fuel);
            let last = hs.last() as int;
            assert(0 <= last < self.arena@.len());
            self.lemma_preds_from_vals(last, fuel);
            assert forall|v: u128|
                #[trigger] self.preds_of_list(hs, fuel).contains(v) implies self.contains_val(v) by {
                let a = self.preds_of_list(hs.drop_last(), fuel);
                let mid = seq![self.val_of(last)];
                let c = self.preds_from(last, fuel);
                assert(self.preds_of_list(hs, fuel) == a + mid + c);
                assert((a + mid + c).contains(v));
                if a.contains(v) {
                } else if c.contains(v) {
                } else {
                    assert(mid.contains(v));
                    let i = choose|i: int| 0 <= i < mid.len() && mid[i] == v;
                    assert(i == 0);
                    assert(v == self.val_of(last));
                    assert(self.in_range(last));
                    assert(self.contains_val(v));
                }
            }
        }
    }

    /// Everything comparable to a declared node is itself declared.
    proof fn lemma_comparable_vals(self, h: int)
        requires
            self.wf(),
            self.in_range(h),
        ensures
            forall|v: u128| self.comparable_val(h, v) ==> #[trigger] self.contains_val(v),
    {
        self.lemma_succs_from_vals(h, self.arena@.len() as nat);
        self.lemma_preds_from_vals(h, self.arena@.len() as nat);
        assert forall|v: u128| self.comparable_val(h, v) implies #[trigger] self.contains_val(v) by {
            if v == self.val_of(h) {
                assert(self.val_of(h) == v);
            }
        }
    }

    /// `val_seq` lists each declared identifier exactly once.
    proof fn lemma_val_seq(self)
        requires
            self.wf(),
        ensures
            self.val_seq().len() == self.n(),
            self.val_seq().no_duplicates(),
            forall|v: u128| self.val_seq().contains(v) <==> #[trigger] self.contains_val(v),
    {
        assert(forall|h: int| 0 <= h < self.n() ==> self.val_seq()[h] == #[trigger] self.val_of(h));
        assert forall|i: int, j: int|
            0 <= i < self.val_seq().len() && 0 <= j < self.val_seq().len() && i != j implies self.val_seq()[i]
            != self.val_seq()[j] by {
            assert(self.val_of(i) != self.val_of(j));
        }
        assert forall|v: u128| self.val_seq().contains(v) implies #[trigger] self.contains_val(v) by {
            let i = choose|i: int| 0 <= i < self.val_seq().len() && self.val_seq()[i] == v;
            assert(self.val_of(i) == v);
        }
        assert forall|v: u128| #[trigger] self.contains_val(v) implies self.val_seq().contains(v) by {
            let h = choose|h: int| self.in_range(h) && #[trigger] self.val_of(h) == v;
            assert(self.val_seq()[h] == v);
        }
    }

    /// The relation is a total order: there are no nodes at all, or every
    /// node is comparable to the node at handle 0 (and hence, in a total
    /// order, to every other).
    pub open spec fn spec_is_linear_order(self) -> bool {
        self.n() == 0 || (forall|h: int|
            self.in_range(h) ==> self.comparable_val(0, #[trigger] self.val_of(h)))
    }

    /// True exactly when the graph is empty or the comparability set of the
    /// first node covers the whole node universe.
    pub fn is_linear_order(&self) -> (r: bool)
        requires
            self.wf(),
        ensures
            r == self.spec_is_linear_order(),
    {
        let n = self.arena.len();
        if n == 0 {
            return true;
        }
        let c = self.comparable_from(0);
        proof {
            self.lemma_comparable_vals(0);
            self.lemma_val_seq();
            c@.unique_seq_to_set();
            self.val_seq().unique_seq_to_set();
            assert forall|v: u128|
                c@.to_set().contains(v) implies self.val_seq().to_set().contains(v) by {
                assert(c@.contains(v));
                assert(self.comparable_val(0, v));
                assert(self.contains_val(v));
                assert(self.val_seq().contains(v));
            }
            assert(c@.to_set().subset_of(self.val_seq().to_set()));
        }
        if c.len() == n {
            proof {
                vstd::set_lib::lemma_subset_equality(c@.to_set(), self.val_seq().to_set());
                assert forall|h: int|
                    self.in_range(h) implies self.comparable_val(0, #[trigger] self.val_of(h)) by {
                    assert(self.val_seq()[h] == self.val_of(h));
                    assert(self.val_seq().contains(self.val_of(h)));
                    assert(self.val_seq().to_set().contains(self.val_of(h)));
                    assert(c@.to_set().contains(self.val_of(h)));
                    assert(c@.contains(self.val_of(h)));
                }
            }
            true
        } else {
            proof {
                vstd::set_lib::lemma_len_subset(c@.to_set(), self.val_seq().to_set());
                assert(!(forall|h: int|
                    self.in_range(h) ==> self.comparable_val(0, #[trigger] self.val_of(h)))) by {
                    if forall|h: int|
                        self.in_range(h) ==> self.comparable_val(0, #[trigger] self.val_of(h)) {
                        assert forall|v: u128|
                            self.val_seq().to_set().contains(v) implies c@.to_set().contains(v) by {
                            assert(self.val_seq().contains(v));
                            let i = choose|i: int|
                                0 <= i < self.val_seq().len() && self.val_seq()[i] == v;
                            assert(self.val_of(i) == v);
                            assert(self.comparable_val(0, self.val_of(i)));
                            assert(c@.contains(v));
                        }
                        vstd::set_lib::lemma_len_subset(self.val_seq().to_set(), c@.to_set());
                        assert(false);
                    }
                }
            }
            false
        }
    }

    /// Every identifier occurring in `a` also occurs in `b`.
    pub open spec fn seq_subset(a: Seq<u128>, b: Seq<u128>) -> bool {
        forall|v: u128| #[trigger] a.contains(v) ==> b.contains(v)
    }

    /// The pair (i, j) witnesses the first forbidden configuration:
    /// neither transitive-successor set contains the other, and the part of
    /// i's successor subtree outside j's successor set branches.
    pub open spec fn first_witness(self, i: int, j: int) -> bool {
        &&& self.in_range(i) && self.in_range(j)
        &&& !Self::seq_subset(self.succ_vals(i), self.succ_vals(j))
        &&& !Self::seq_subset(self.succ_vals(j), self.succ_vals(i))
        &&& !self.spec_chain_ok(i, self.succ_vals(j))
    }

    /// Some pair of nodes witnesses the first forbidden configuration.
    pub open spec fn spec_is_first(self) -> bool {
        exists|i: int, j: int| #[trigger] self.first_witness(i, j)
    }

    /// The tuple (i, j, x, z, y) witnesses the second forbidden
    /// configuration: x lies in i's successor set but not j's, z in j's but
    /// not i's, and y is a transitive predecessor of x that is neither
    /// comparable to i nor a transitive predecessor of z.
    pub open spec fn second_witness(self, i: int, j: int, x: int, z: int, y: int) -> bool {
        &&& self.in_range(i) && self.in_range(j) && self.in_range(x) && self.in_range(z)
            && self.in_range(y)
        &&& self.succ_vals(i).contains(self.val_of(x)) && !self.succ_vals(j).contains(self.val_of(x))
        &&& self.succ_vals(j).contains(self.val_of(z)) && !self.succ_vals(i).contains(self.val_of(z))
        &&& self.pred_vals(x).contains(self.val_of(y))
        &&& !self.comparable_val(i, self.val_of(y))
        &&& !self.pred_vals(z).contains(self.val_of(y))
    }

    /// Some tuple of nodes witnesses the second forbidden configuration.
    pub open spec fn spec_is_second(self) -> bool {
        exists|i: int, j: int, x: int, z: int, y: int| #[trigger] self.second_witness(i, j, x, z, y)
    }

    /// The tuple (i, j, x, z, y) witnesses the third forbidden
    /// configuration: x lies in i's successor set but not j's, z in j's but
    /// not i's, and y is a transitive successor of x inside j's successor
    /// set that is not a transitive successor of z.
    pub open spec fn third_witness(self, i: int, j: int, x: int, z: int, y: int) -> bool {
        &&& self.in_range(i) && self.in_range(j) && self.in_range(x) && self.in_range(z)
            && self.in_range(y)
        &&& self.succ_vals(i).contains(self.val_of(x)) && !self.succ_vals(j).contains(self.val_of(x))
        &&& self.succ_vals(j).contains(self.val_of(z)) && !self.succ_vals(i).contains(self.val_of(z))
        &&& self.succ_vals(x).contains(self.val_of(y))
        &&& self.succ_vals(j).contains(self.val_of(y))
        &&& !self.succ_vals(z).contains(self.val_of(y))
    }

    /// Some tuple of nodes witnesses the third forbidden configuration.
    pub open spec fn spec_is_third(self) -> bool {
        exists|i: int, j: int, x: int, z: int, y: int| #[trigger] self.third_witness(i, j, x, z, y)
    }

    /// The relation avoids all three forbidden configurations.
    pub open spec fn spec_is_quasi_interval_order(self) -> bool {
        !(self.spec_is_first() || self.spec_is_second() || self.spec_is_third())
    }

    /// Searches every ordered pair of nodes for the first forbidden
    /// configuration.
    pub fn is_first(&self) -> (r: bool)
        requires
            self.wf(),
        ensures
            r == self.spec_is_first(),
    {
        let n = self.arena.len();
        let mut i: usize = 0;
        #[verifier::loop_isolation(false)]
        while i < n
            invariant
                i <= n,
                forall|i2: int, j2: int| 0 <= i2 < i ==> !(#[trigger] self.first_witness(i2, j2)),
            decreases n - i,
        {
            let mut j: usize = 0;
            #[verifier::loop_isolation(false)]
            while j < n
                invariant
                    j <= n,
                    forall|j2: int| 0 <= j2 < j ==> !(#[trigger] self.first_witness(i as int, j2)),
                decreases n - j,
            {
                let succ_i = self.all_succs_from(i, n);
                let succ_j = self.all_succs_from(j, n);
                let i_in_j = seq_subset_exec(&succ_i, &succ_j);
                let j_in_i = seq_subset_exec(&succ_j, &succ_i);
                if !i_in_j && !j_in_i {
                    if !self.chain_walk(i, &succ_j) {
                        proof {
                            assert(self.first_witness(i as int, j as int));
                        }
                        return true;
                    }
                }
                proof {
                    assert(!self.first_witness(i as int, j as int));
                }
                j = j + 1;
            }
            proof {
                assert forall|j2: int| !(#[trigger] self.first_witness(i as int, j2)) by {
                    if self.first_witness(i as int, j2) {
                        assert(self.in_range(j2));
                    }
                }
            }
            i = i + 1;
        }
        proof {
            assert forall|i2: int, j2: int| !(#[trigger] self.first_witness(i2, j2)) by {
                if self.first_witness(i2, j2) {
                    assert(self.in_range(i2));
                }
            }
        }
        false
    }

    /// Searches for a witness of the second forbidden configuration with
    /// the outer pair fixed to (i, j).
    fn second_pair(&self, i: usize, j: usize) -> (r: bool)
        requires
            self.wf(),
            self.in_range(i as int),
            self.in_range(j as int),
        ensures
            r == exists|x: int, z: int, y: int|
                #[trigger] self.second_witness(i as int, j as int, x, z, y),
    {
        let n = self.arena.len();
        let succ_i = self.all_succs_from(i, n);
        let succ_j = self.all_succs_from(j, n);
        let comp_i = self.comparable_from(i);
        let mut x: usize = 0;
        #[verifier::loop_isolation(false)]
        while x < n
            invariant
                x <= n,
                forall|x2: int, z2: int, y2: int|
                    0 <= x2 < x ==> !(#[trigger] self.second_witness(i as int, j as int, x2, z2, y2)),
            decreases n - x,
        {
            let xv = self.arena[x].val;
            assert(xv == self.val_of(x as int));
            if vec_contains_val(&succ_i, xv) && !vec_contains_val(&succ_j, xv) {
                let x_pred = self.all_preds_from(x, n);
                let mut z: usize = 0;
                #[verifier::loop_isolation(false)]
                while z < n
                    invariant
                        z <= n,
                        forall|z2: int, y2: int|
                            0 <= z2 < z ==> !(#[trigger] self.second_witness(
                                i as int,
                                j as int,
                                x as int,
                                z2,
                                y2,
                            )),
                    decreases n - z,
                {
                    let zv = self.arena[z].val;
                    assert(zv == self.val_of(z as int));
                    if vec_contains_val(&succ_j, zv) && !vec_contains_val(&succ_i, zv) {
                        let z_pred = self.all_preds_from(z, n);
                        let mut y: usize = 0;
                        #[verifier::loop_isolation(false)]
                        while y < n
                            invariant
                                y <= n,
                                forall|y2: int|
                                    0 <= y2 < y ==> !(#[trigger] self.second_witness(
                                        i as int,
                                        j as int,
                                        x as int,
                                        z as int,
                                        y2,
                                    )),
                            decreases n - y,
                        {
                            let yv = self.arena[y].val;
                            assert(yv == self.val_of(y as int));
                            if vec_contains_val(&x_pred, yv) && !vec_contains_val(&comp_i, yv)
                                && !vec_contains_val(&z_pred, yv) {
                                proof {
                                    assert(self.second_witness(
                                        i as int,
                                        j as int,
                                        x as int,
                                        z as int,
                                        y as int,
                                    ));
                                }
                                return true;
                            }
                            proof {
                                assert(!self.second_witness(
                                    i as int,
                                    j as int,
                                    x as int,
                                    z as int,
                                    y as int,
                                ));
                            }
                            y = y + 1;
                        }
                        proof {
                            assert forall|y2: int|
                                !(#[trigger] self.second_witness(
                                    i as int,
                                    j as int,
                                    x as int,
                                    z as int,
                                    y2,
                                )) by {
                                if self.second_witness(i as int, j as int, x as int, z as int, y2) {
                                    assert(self.in_range(y2));
                                }
                            }
                        }
                    } else {
                        proof {
                            assert forall|y2: int|
                                !(#[trigger] self.second_witness(
                                    i as int,
                                    j as int,
                                    x as int,
                                    z as int,
                                    y2,
                                )) by {}
                        }
                    }
                    z = z + 1;
                }
                proof {
                    assert forall|z2: int, y2: int|
                        !(#[trigger] self.second_witness(i as int, j as int, x as int, z2, y2)) by {
                        if self.second_witness(i as int, j as int, x as int, z2, y2) {
                            assert(self.in_range(z2));
                        }
                    }
                }
            } else {
                proof {
                    assert forall|z2: int, y2: int|
                        !(#[trigger] self.second_witness(i as int, j as int, x as int, z2, y2)) by {}
                }
            }
            x = x + 1;
        }
        proof {
            assert forall|x2: int, z2: int, y2: int|
                !(#[trigger] self.second_witness(i as int, j as int, x2, z2, y2)) by {
                if self.second_witness(i as int, j as int, x2, z2, y2) {
                    assert(self.in_range(x2));
                }
            }
        }
        false
    }

    /// Searches every ordered pair of nodes for the second forbidden
    /// configuration.
    pub fn is_second(&self) -> (r: bool)
        requires
            self.wf(),
        ensures
            r == self.spec_is_second(),
    {
        let n = self.arena.len();
        let mut i: usize = 0;
        #[verifier::loop_isolation(false)]
        while i < n
            invariant
                i <= n,
                forall|i2: int, j2: int, x2: int, z2: int, y2: int|
                    0 <= i2 < i ==> !(#[trigger] self.second_witness(i2, j2, x2, z2, y2)),
            decreases n - i,
        {
            let mut j: usize = 0;
            #[verifier::loop_isolation(false)]
            while j < n
                invariant
                    j <= n,
                    forall|j2: int, x2: int, z2: int, y2: int|
                        0 <= j2 < j ==> !(#[trigger] self.second_witness(i as int, j2, x2, z2, y2)),
                decreases n - j,
            {
                if self.second_pair(i, j) {
                    return true;
                }
                j = j + 1;
            }
            proof {
                assert forall|j2: int, x2: int, z2: int, y2: int|
                    !(#[trigger] self.second_witness(i as int, j2, x2, z2, y2)) by {
                    if self.second_witness(i as int, j2, x2, z2, y2) {
                        assert(self.in_range(j2));
                    }
                }
            }
            i = i + 1;
        }
        proof {
            assert forall|i2: int, j2: int, x2: int, z2: int, y2: int|
                !(#[trigger] self.second_witness(i2, j2, x2, z2, y2)) by {
                if self.second_witness(i2, j2, x2, z2, y2) {
                    assert(self.in_range(i2));
                }
            }
        }
        false
    }

    /// Searches for a witness of the third forbidden configuration with
    /// the outer pair fixed to (i, j).
    fn third_pair(&self, i: usize, j: usize) -> (r: bool)
        requires
            self.wf(),
            self.in_range(i as int),
            self.in_range(j as int),
        ensures
            r == exists|x: int, z: int, y: int|
                #[trigger] self.third_witness(i as int, j as int, x, z, y),
    {
        let n = self.arena.len();
        let succ_i = self.all_succs_from(i, n);
        let succ_j = self.all_succs_from(j, n);
        let mut x: usize = 0;
        #[verifier::loop_isolation(false)]
        while x < n
            invariant
                x <= n,
                forall|x2: int, z2: int, y2: int|
                    0 <= x2 < x ==> !(#[trigger] self.third_witness(i as int, j as int, x2, z2, y2)),
            decreases n - x,
        {
            let xv = self.arena[x].val;
            assert(xv == self.val_of(x as int));
            if vec_contains_val(&succ_i, xv) && !vec_contains_val(&succ_j, xv) {
                let x_succ = self.all_succs_from(x, n);
                let mut z: usize = 0;
                #[verifier::loop_isolation(false)]
                while z < n
                    invariant
                        z <= n,
                        forall|z2: int, y2: int|
                            0 <= z2 < z ==> !(#[trigger] self.third_witness(
                                i as int,
                                j as int,
                                x as int,
                                z2,
                                y2,
                            )),
                    decreases n - z,
                {
                    let zv = self.arena[z].val;
                    assert(zv == self.val_of(z as int));
                    if vec_contains_val(&succ_j, zv) && !vec_contains_val(&succ_i, zv) {
                        let z_succ = self.all_succs_from(z, n);
                        let mut y: usize = 0;
                        #[verifier::loop_isolation(false)]
                        while y < n
                            invariant
                                y <= n,
                                forall|y2: int|
                                    0 <= y2 < y ==> !(#[trigger] self.third_witness(
                                        i as int,
                                        j as int,
                                        x as int,
                                        z as int,
                                        y2,
                                    )),
                            decreases n - y,
                        {
                            let yv = self.arena[y].val;
                            assert(yv == self.val_of(y as int));
                            if vec_contains_val(&x_succ, yv) && vec_contains_val(&succ_j, yv)
                                && !vec_contains_val(&z_succ, yv) {
                                proof {
                                    assert(self.third_witness(
                                        i as int,
                                        j as int,
                                        x as int,
                                        z as int,
                                        y as int,
                                    ));
                                }
                                return true;
                            }
                            proof {
                                assert(!self.third_witness(
                                    i as int,
                                    j as int,
                                    x as int,
                                    z as int,
                                    y as int,
                                ));
                            }
                            y = y + 1;
                        }
                        proof {
                            assert forall|y2: int|
                                !(#[trigger] self.third_witness(
                                    i as int,
                                    j as int,
                                    x as int,
                                    z as int,
                                    y2,
                                )) by {
                                if self.third_witness(i as int, j as int, x as int, z as int, y2) {
                                    assert(self.in_range(y2));
                                }
                            }
                        }
                    } else {
                        proof {
                            assert forall|y2: int|
                                !(#[trigger] self.third_witness(
                                    i as int,
                                    j as int,
                                    x as int,
                                    z as int,
                                    y2,
                                )) by {}
                        }
                    }
                    z = z + 1;
                }
                proof {
                    assert forall|z2: int, y2: int|
                        !(#[trigger] self.third_witness(i as int, j as int, x as int, z2, y2)) by {
                        if self.third_witness(i as int, j as int, x as int, z2, y2) {
                            assert(self.in_range(z2));
                        }
                    }
                }
            } else {
                proof {
                    assert forall|z2: int, y2: int|
                        !(#[trigger] self.third_witness(i as int, j as int, x as int, z2, y2)) by {}
                }
            }
            x = x + 1;
        }
        proof {
            assert forall|x2: int, z2: int, y2: int|
                !(#[trigger] self.third_witness(i as int, j as int, x2, z2, y2)) by {
                if self.third_witness(i as int, j as int, x2, z2, y2) {
                    assert(self.in_range(x2));
                }
            }
        }
        false
    }

    /// Searches every ordered pair of nodes for the third forbidden
    /// configuration.
    pub fn is_third(&self) -> (r: bool)
        requires
            self.wf(),
        ensures
            r == self.spec_is_third(),
    {
        let n = self.arena.len();
        let mut i: usize = 0;
        #[verifier::loop_isolation(false)]
        while i < n
            invariant
                i <= n,
                forall|i2: int, j2: int, x2: int, z2: int, y2: int|
                    0 <= i2 < i ==> !(#[trigger] self.third_witness(i2, j2, x2, z2, y2)),
            decreases n - i,
        {
            let mut j: usize = 0;
            #[verifier::loop_isolation(false)]
            while j < n
                invariant
                    j <= n,
                    forall|j2: int, x2: int, z2: int, y2: int|
                        0 <= j2 < j ==> !(#[trigger] self.third_witness(i as int, j2, x2, z2, y2)),
                decreases n - j,
            {
                if self.third_pair(i, j) {
                    return true;
                }
                j = j + 1;
            }
            proof {
                assert forall|j2: int, x2: int, z2: int, y2: int|
                    !(#[trigger] self.third_witness(i as int, j2, x2, z2, y2)) by {
                    if self.third_witness(i as int, j2, x2, z2, y2) {
                        assert(self.in_range(j2));
                    }
                }
            }
            i = i + 1;
        }
        proof {
            assert forall|i2: int, j2: int, x2: int, z2: int, y2: int|
                !(#[trigger] self.third_witness(i2, j2, x2, z2, y2)) by {
                if self.third_witness(i2, j2, x2, z2, y2) {
                    assert(self.in_range(i2));
                }
            }
        }
        false
    }

    /// The relation is a quasi-interval order: it avoids all three
    /// forbidden configurations.
    pub fn is_quasi_interval_order(&self) -> (r: bool)
        requires
            self.wf(),
        ensures
            r == self.spec_is_quasi_interval_order(),
    {
        !(self.is_first() || self.is_second() || self.is_third())
    }

    /// In a well-formed graph, `handle_of` inverts `val_of`.
    proof fn lemma_handle_of_val(self, h: int)
        requires
            self.wf(),
            self.in_range(h),
        ensures
            self.handle_of(self.val_of(h)) == h,
    {
        assert(self.in_range(h) && self.val_of(h) == self.val_of(h));
        let w = self.handle_of(self.val_of(h));
        assert(self.in_range(w) && self.val_of(w) == self.val_of(h));
    }

    /// The number of entries the full successor traversal of the node
    /// valued `v` yields, counted with multiplicity.
    pub open spec fn succ_count_of(self, v: u128) -> nat {
        self.succ_vals(self.handle_of(v)).len()
    }

    /// Every node's identifier, ordered by descending count of transitive
    /// successors (counted with multiplicity); ties may appear in either
    /// relative order.
    pub fn msf_list(&self) -> (r: Vec<u128>)
        requires
            self.wf(),
        ensures
            r@.len() == self.n(),
            r@.no_duplicates(),
            forall|v: u128| #[trigger] r@.contains(v) <==> self.contains_val(v),
            forall|k: int|
                0 <= k < r@.len() - 1 ==> self.succ_count_of(#[trigger] r@[k]) >= self.succ_count_of(
                    r@[k + 1],
                ),
    {
        let n = self.arena.len();
        let mut vals: Vec<u128> = Vec::new();
        let mut counts: Vec<usize> = Vec::new();
        let mut h: usize = 0;
        #[verifier::loop_isolation(false)]
        while h < n
            invariant
                h <= n,
                vals@.len() == h,
                counts@.len() == h,
                vals@.no_duplicates(),
                forall|v: u128| #[trigger] vals@.contains(v) <==> (exists|h2: int|
                    0 <= h2 < h && #[trigger] self.val_of(h2) == v),
                forall|k: int|
                    0 <= k < h ==> counts@[k] as nat == self.succ_count_of(#[trigger] vals@[k]),
                forall|k: int| 0 <= k < h - 1 ==> #[trigger] counts@[k] >= counts@[k + 1],
            decreases n - h,
        {
            let v = self.arena[h].val;
            let c = self.all_succs_from(h, n).len();
            proof {
                self.lemma_handle_of_val(h as int);
                assert(c as nat == self.succ_count_of(v));
                assert(!vals@.contains(v)) by {
                    if vals@.contains(v) {
                        let h2 = choose|h2: int| 0 <= h2 < h && #[trigger] self.val_of(h2) == v;
                        assert(self.val_of(h2) != self.val_of(h as int));
                    }
                }
            }
            let mut p: usize = 0;
            #[verifier::loop_isolation(false)]
            while p < h && counts[p] >= c
                invariant
                    p <= h,
                    counts@.len() == h,
                    forall|k: int| 0 <= k < p ==> counts@[k] >= c,
                decreases h - p,
            {
                p = p + 1;
            }
            let ghost old_vals = vals@;
            let ghost old_counts = counts@;
            vals.insert(p, v);
            counts.insert(p, c);
            proof {
                let pi = p as int;
                assert(vals@ == old_vals.insert(pi, v));
                assert(counts@ == old_counts.insert(pi, c));
                assert(forall|k: int| 0 <= k < pi ==> vals@[k] == old_vals[k]);
                assert(vals@[pi] == v);
                assert(forall|k: int| pi < k < vals@.len() ==> vals@[k] == old_vals[k - 1]);
                assert(forall|k: int| 0 <= k < pi ==> counts@[k] == old_counts[k]);
                assert(counts@[pi] == c);
                assert(forall|k: int| pi < k < counts@.len() ==> counts@[k] == old_counts[k - 1]);
                assert forall|v2: u128| #[trigger] vals@.contains(v2) implies (exists|h2: int|
                    0 <= h2 < h + 1 && #[trigger] self.val_of(h2) == v2) by {
                    let k = choose|k: int| 0 <= k < vals@.len() && vals@[k] == v2;
                    if k == pi {
                        assert(self.val_of(h as int) == v2);
                    } else {
                        assert(old_vals.contains(v2)) by {
                            if k < pi {
                                assert(old_vals[k] == v2);
                            } else {
                                assert(old_vals[k - 1] == v2);
                            }
                        }
                    }
                }
                assert forall|v2: u128|
                    (exists|h2: int| 0 <= h2 < h + 1 && #[trigger] self.val_of(h2) == v2) implies (
                #[trigger] vals@.contains(v2)) by {
                    let h2 = choose|h2: int| 0 <= h2 < h + 1 && #[trigger] self.val_of(h2) == v2;
                    if h2 == h as int {
                        assert(vals@[pi] == v2);
                    } else {
                        assert(old_vals.contains(v2));
                        let k = choose|k: int| 0 <= k < old_vals.len() && old_vals[k] == v2;
                        if k < pi {
                            assert(vals@[k] == v2);
                        } else {
                            assert(vals@[k + 1] == v2);
                        }
                    }
                }
                assert forall|k1: int, k2: int|
                    0 <= k1 < vals@.len() && 0 <= k2 < vals@.len() && k1 != k2 implies vals@[k1]
                    != vals@[k2] by {
                    if k1 != pi && k2 != pi {
                        let o1: int = if k1 < pi { k1 } else { k1 - 1 };
                        let o2: int = if k2 < pi { k2 } else { k2 - 1 };
                        assert(vals@[k1] == old_vals[o1] && vals@[k2] == old_vals[o2]);
                    } else if k1 == pi {
                        assert(!old_vals.contains(vals@[k2]) ==> false) by {
                            let o2: int = if k2 < pi { k2 } else { k2 - 1 };
                            assert(old_vals[o2] == vals@[k2]);
                        }
                        assert(!old_vals.contains(v));
                    } else {
                        let o1: int = if k1 < pi { k1 } else { k1 - 1 };
                        assert(old_vals[o1] == vals@[k1]);
                        assert(old_vals.contains(vals@[k1]));
                        assert(!old_vals.contains(v));
                    }
                }
                assert forall|k: int|
                    0 <= k < counts@.len() - 1 implies #[trigger] counts@[k] >= counts@[k + 1] by {
                    if k + 1 < pi {
                        assert(old_counts[k] >= old_counts[k + 1]);
                    } else if k + 1 == pi {
                        assert(counts@[k] == old_counts[k] && counts@[k] >= c);
                    } else if k == pi {
                        assert(counts@[k + 1] == old_counts[k]);
                        if pi < h {
                            assert(!(old_counts[pi] >= c));
                            assert(c > old_counts[pi]);
                        }
                    } else {
                        assert(old_counts[k - 1] >= old_counts[k]);
                    }
                }
                assert forall|k: int|
                    0 <= k < counts@.len() implies counts@[k] as nat == self.succ_count_of(
                    #[trigger] vals@[k]) by {
                    if k != pi {
                        let o: int = if k < pi { k } else { k - 1 };
                        assert(vals@[k] == old_vals[o] && counts@[k] == old_counts[o]);
                        assert(old_counts[o] as nat == self.succ_count_of(old_vals[o]));
                    }
                }
            }
            h = h + 1;
        }
        proof {
            assert forall|v: u128| #[trigger] vals@.contains(v) implies self.contains_val(v) by {
                let h2 = choose|h2: int| 0 <= h2 < n && #[trigger] self.val_of(h2) == v;
                assert(self.in_range(h2));
            }
            assert forall|v: u128| #[trigger] self.contains_val(v) implies vals@.contains(v) by {
                let h2 = choose|h2: int| self.in_range(h2) && #[trigger] self.val_of(h2) == v;
                assert(0 <= h2 < n && self.val_of(h2) == v);
            }
            assert forall|k: int|
                0 <= k < vals@.len() - 1 implies self.succ_count_of(#[trigger] vals@[k])
                >= self.succ_count_of(vals@[k + 1]) by {
                assert(counts@[k] as nat == self.succ_count_of(vals@[k]));
                assert(counts@[k + 1] as nat == self.succ_count_of(vals@[k + 1]));
                assert(counts@[k] >= counts@[k + 1]);
            }
        }
        vals
    }

    /// `rank` is a topological rank: every edge strictly increases it.
    pub open spec fn respects_topo(self, rank: Seq<int>) -> bool {
        &&& rank.len() == self.n()
        &&& (forall|h: int| self.in_range(h) ==> 0 <= #[trigger] rank[h] < self.n())
        &&& (forall|u: int, v: int| #[trigger] self.edge(u, v) ==> rank[u] < rank[v])
    }

    /// The relation is acyclic: it admits a topological rank.
    pub open spec fn acyclic(self) -> bool {
        exists|rank: Seq<int>| self.respects_topo(rank)
    }

    /// Under the labeling state `labeled`, the node at `e` may be labeled
    /// next: it is unlabeled and all its direct successors are labeled.
    pub open spec fn eligible(self, labeled: Seq<bool>, e: int) -> bool {
        &&& self.in_range(e)
        &&& !labeled[e]
        &&& (forall|k: int|
            0 <= k < self.succ_handles(e).len() ==> labeled[(#[trigger] self.succ_handles(e)[k]) as int])
    }

    /// In an acyclic graph, as long as some node is unlabeled, some node is
    /// eligible: follow unlabeled successors upward in rank until none is
    /// left.
    proof fn lemma_eligible_exists(self, labeled: Seq<bool>, rank: Seq<int>, h: int)
        requires
            self.wf(),
            self.respects_topo(rank),
            labeled.len() == self.n(),
            self.in_range(h),
            !labeled[h],
        ensures
            exists|e: int| #[trigger] self.eligible(labeled, e),
        decreases self.n() - rank[h],
    {
        assert(self.node_ok(h));
        if exists|k: int|
            0 <= k < self.succ_handles(h).len() && !labeled[(#[trigger] self.succ_handles(h)[k]) as int] {
            let k = choose|k: int|
                0 <= k < self.succ_handles(h).len() && !labeled[(#[trigger] self.succ_handles(
                    h,
                )[k]) as int];
            let s = self.succ_handles(h)[k] as int;
            assert(self.succ_handles(h).contains(self.succ_handles(h)[k]));
            assert(self.edge(h, s));
            assert(rank[h] < rank[s]);
            assert(0 <= rank[s] < self.n());
            self.lemma_eligible_exists(labeled, rank, s);
        } else {
            assert(self.eligible(labeled, h));
        }
    }

    /// Strict lexicographic order on label sequences: element by element,
    /// with a proper prefix smaller than any extension.
    pub open spec fn lex_less(a: Seq<usize>, b: Seq<usize>) -> bool
        decreases a.len(),
    {
        if b.len() == 0 {
            false
        } else if a.len() == 0 {
            true
        } else if a[0] < b[0] {
            true
        } else if a[0] > b[0] {
            false
        } else {
            Self::lex_less(a.drop_first(), b.drop_first())
        }
    }

    /// The labels of the direct successors of `h`, sorted descending.
    fn succ_label_key(&self, labels: &Vec<usize>, h: usize) -> (r: Vec<usize>)
        requires
            self.wf(),
            self.in_range(h as int),
            labels@.len() == self.n(),
            forall|k1: int, k2: int|
                0 <= k1 < self.succ_handles(h as int).len() && 0 <= k2 < self.succ_handles(
                    h as int,
                ).len() && k1 != k2 ==> labels@[(#[trigger] self.succ_handles(h as int)[k1]) as int]
                    != labels@[(#[trigger] self.succ_handles(h as int)[k2]) as int],
        ensures
            Self::strict_desc(r@),
            forall|m: int|
                Self::key_elems(r@).contains(m) <==> (exists|k: int|
                    0 <= k < self.succ_handles(h as int).len() && (labels@[(
                    #[trigger] self.succ_handles(h as int)[k]) as int]) as int == m),
    {
        let m = self.arena[h].succ.len();
        let mut r: Vec<usize> = Vec::new();
        let mut k: usize = 0;
        #[verifier::loop_isolation(false)]
        while k < m
            invariant
                k <= m,
                Self::strict_desc(r@),
                forall|m2: int|
                    Self::key_elems(r@).contains(m2) <==> (exists|k2: int|
                        0 <= k2 < k && (labels@[(#[trigger] self.succ_handles(h as int)[k2]) as int])
                            as int == m2),
            decreases m - k,
        {
            assert(self.node_ok(h as int));
            let sh = self.arena[h].succ[k];
            assert(self.succ_handles(h as int)[k as int] == sh);
            let lab = labels[sh];
            proof {
                assert(!Self::key_elems(r@).contains(lab as int)) by {
                    if Self::key_elems(r@).contains(lab as int) {
                        let k2 = choose|k2: int|
                            0 <= k2 < k && (labels@[(#[trigger] self.succ_handles(
                                h as int,
                            )[k2]) as int]) as int == lab as int;
                        assert(labels@[(self.succ_handles(h as int)[k2]) as int] != labels@[(
                        self.succ_handles(h as int)[k as int]) as int]);
                    }
                }
                assert forall|k2: int| 0 <= k2 < r@.len() implies #[trigger] r@[k2] != lab by {
                    assert(Self::key_elems(r@).contains((r@[k2]) as int));
                }
            }
            let mut p: usize = 0;
            let rl = r.len();
            #[verifier::loop_isolation(false)]
            while p < rl && r[p] >= lab
                invariant
                    p <= rl,
                    rl == r@.len(),
                    forall|k2: int| 0 <= k2 < p ==> #[trigger] r@[k2] >= lab,
                decreases rl - p,
            {
                p = p + 1;
            }
            let ghost old_r = r@;
            r.insert(p, lab);
            proof {
                let pi = p as int;
                assert(r@ == old_r.insert(pi, lab));
                assert(forall|k2: int| 0 <= k2 < pi ==> r@[k2] == old_r[k2]);
                assert(r@[pi] == lab);
                assert(forall|k2: int| pi < k2 < r@.len() ==> r@[k2] == old_r[k2 - 1]);
                assert forall|k2: int|
                    0 <= k2 < r@.len() - 1 implies #[trigger] r@[k2] > r@[k2 + 1] by {
                    if k2 + 1 < pi {
                        assert(old_r[k2] > old_r[k2 + 1]);
                    } else if k2 + 1 == pi {
                        assert(r@[k2] == old_r[k2] && r@[k2] >= lab && old_r[k2] != lab);
                    } else if k2 == pi {
                        assert(r@[k2 + 1] == old_r[k2]);
                        if pi < old_r.len() {
                            assert(!(old_r[pi] >= lab));
                        }
                    } else {
                        assert(old_r[k2 - 1] > old_r[k2]);
                    }
                }
                assert forall|m2: int|
                    Self::key_elems(r@).contains(m2) implies (exists|k2: int|
                        0 <= k2 < k + 1 && (labels@[(#[trigger] self.succ_handles(
                            h as int,
                        )[k2]) as int]) as int == m2) by {
                    let q = choose|q: int| 0 <= q < r@.len() && (#[trigger] r@[q]) as int == m2;
                    if q == pi {
                        assert((labels@[(self.succ_handles(h as int)[k as int]) as int]) as int
                            == m2);
                    } else {
                        let oq: int = if q < pi {
                            q
                        } else {
                            q - 1
                        };
                        assert((old_r[oq]) as int == m2);
                        assert(Self::key_elems(old_r).contains(m2));
                    }
                }
                assert forall|m2: int|
                    (exists|k2: int|
                        0 <= k2 < k + 1 && (labels@[(#[trigger] self.succ_handles(
                            h as int,
                        )[k2]) as int]) as int == m2) implies Self::key_elems(r@).contains(m2) by {
                    let k2 = choose|k2: int|
                        0 <= k2 < k + 1 && (labels@[(#[trigger] self.succ_handles(
                            h as int,
                        )[k2]) as int]) as int == m2;
                    if k2 == k as int {
                        assert((r@[pi]) as int == m2);
                    } else {
                        assert(Self::key_elems(old_r).contains(m2));
                        let q = choose|q: int|
                            0 <= q < old_r.len() && (#[trigger] old_r[q]) as int == m2;
                        if q < pi {
                            assert((r@[q]) as int == m2);
                        } else {
                            assert((r@[q + 1]) as int == m2);
                        }
                    }
                }
            }
            k = k + 1;
        }
        r
    }

    /// Every direct successor of `h` is labeled.
    fn succs_all_labeled(&self, labeled: &Vec<bool>, h: usize) -> (r: bool)
        requires
            self.wf(),
            self.in_range(h as int),
            labeled@.len() == self.n(),
        ensures
            r == (forall|k: int|
                0 <= k < self.succ_handles(h as int).len() ==> labeled@[(#[trigger] self.succ_handles(
                    h as int,
                )[k]) as int]),
    {
        let m = self.arena[h].succ.len();
        let mut k: usize = 0;
        #[verifier::loop_isolation(false)]
        while k < m
            invariant
                k <= m,
                forall|k2: int|
                    0 <= k2 < k ==> labeled@[(#[trigger] self.succ_handles(h as int)[k2]) as int],
            decreases m - k,
        {
            assert(self.node_ok(h as int));
            let sh = self.arena[h].succ[k];
            assert(self.succ_handles(h as int)[k as int] == sh);
            if !labeled[sh] {
                return false;
            }
            k = k + 1;
        }
        true
    }

    /// At step `jj` of the elimination order `order`, the chosen node was
    /// not yet labeled and every one of its direct successors already was.
    pub open spec fn gc_step_ok(self, order: Seq<int>, jj: int) -> bool {
        &&& self.in_range(order[jj])
        &&& !order.take(jj).contains(order[jj])
        &&& (forall|k: int|
            0 <= k < self.succ_handles(order[jj]).len() ==> order.take(jj).contains(
                (#[trigger] self.succ_handles(order[jj])[k]) as int,
            ))
    }

    /// `order` is a valid labeling order: it labels each node exactly once,
    /// and only once all of its direct successors are labeled.
    pub open spec fn gc_order_ok(self, order: Seq<int>) -> bool {
        &&& order.len() == self.n()
        &&& (forall|jj: int| 0 <= jj < order.len() ==> self.gc_step_ok(order, jj))
    }

    /// The node at `h` may be labeled at step `jj` of `order`: it is not
    /// among the first `jj` labeled and all its direct successors are.
    pub open spec fn eligible_at(self, order: Seq<int>, jj: int, h: int) -> bool {
        &&& self.in_range(h)
        &&& !order.take(jj).contains(h)
        &&& (forall|k: int|
            0 <= k < self.succ_handles(h).len() ==> order.take(jj).contains(
                (#[trigger] self.succ_handles(h)[k]) as int,
            ))
    }

    /// The set of labels (positions in `order`) held by the direct
    /// successors of the node at `h`.
    pub open spec fn succ_label_set(self, order: Seq<int>, h: int) -> Set<int> {
        Set::new(
            |jj: int|
                0 <= jj < order.len() && self.succ_handles(h).contains((order[jj]) as usize),
        )
    }

    /// `a` compares below `b` as descending-sorted label sequences compare
    /// lexicographically: the largest label on which the two sets differ
    /// belongs to `b`.
    pub open spec fn key_lt(a: Set<int>, b: Set<int>) -> bool {
        exists|m: int|
            #[trigger] b.contains(m) && !a.contains(m) && (forall|x: int|
                x > m ==> ((#[trigger] a.contains(x)) <==> b.contains(x)))
    }

    /// `key_lt` is transitive.
    proof fn lemma_key_lt_trans(a: Set<int>, b: Set<int>, c: Set<int>)
        requires
            Self::key_lt(a, b),
            Self::key_lt(b, c),
        ensures
            Self::key_lt(a, c),
    {
        let m1 = choose|m: int|
            #[trigger] b.contains(m) && !a.contains(m) && (forall|x: int|
                x > m ==> ((#[trigger] a.contains(x)) <==> b.contains(x)));
        let m2 = choose|m: int|
            #[trigger] c.contains(m) && !b.contains(m) && (forall|x: int|
                x > m ==> ((#[trigger] b.contains(x)) <==> c.contains(x)));
        if m1 < m2 {
            assert(!a.contains(m2));
            assert forall|x: int| x > m2 implies ((#[trigger] a.contains(x)) <==> c.contains(
                x,
            )) by {
                assert(a.contains(x) <==> b.contains(x));
                assert(b.contains(x) <==> c.contains(x));
            }
            assert(Self::key_lt(a, c));
        } else if m1 > m2 {
            assert(c.contains(m1));
            assert forall|x: int| x > m1 implies ((#[trigger] a.contains(x)) <==> c.contains(
                x,
            )) by {
                assert(a.contains(x) <==> b.contains(x));
                assert(b.contains(x) <==> c.contains(x));
            }
            assert(Self::key_lt(a, c));
        } else {
            assert(b.contains(m1) && !b.contains(m2));
            assert(false);
        }
    }

    /// Removing a label common to both sets does not change how they
    /// compare.
    proof fn lemma_key_lt_remove(a: Set<int>, b: Set<int>, c: int)
        requires
            a.contains(c),
            b.contains(c),
        ensures
            Self::key_lt(a, b) == Self::key_lt(a.remove(c), b.remove(c)),
    {
        if Self::key_lt(a, b) {
            let m = choose|m: int|
                #[trigger] b.contains(m) && !a.contains(m) && (forall|x: int|
                    x > m ==> ((#[trigger] a.contains(x)) <==> b.contains(x)));
            assert(m != c);
            assert(b.remove(c).contains(m));
            assert(!a.remove(c).contains(m));
            assert forall|x: int| x > m implies ((#[trigger] a.remove(c).contains(x))
                <==> b.remove(c).contains(x)) by {
                if x == c {
                } else {
                    assert(a.contains(x) <==> b.contains(x));
                }
            }
            assert(Self::key_lt(a.remove(c), b.remove(c)));
        }
        if Self::key_lt(a.remove(c), b.remove(c)) {
            let m = choose|m: int|
                #[trigger] b.remove(c).contains(m) && !a.remove(c).contains(m) && (forall|x: int|
                    x > m ==> ((#[trigger] a.remove(c).contains(x)) <==> b.remove(c).contains(x)));
            assert(m != c);
            assert(b.contains(m));
            assert(!a.contains(m));
            assert forall|x: int| x > m implies ((#[trigger] a.contains(x)) <==> b.contains(
                x,
            )) by {
                if x == c {
                } else {
                    assert(a.remove(c).contains(x) <==> b.remove(c).contains(x));
                }
            }
            assert(Self::key_lt(a, b));
        }
    }

    /// Strictly descending label sequence.
    pub open spec fn strict_desc(a: Seq<usize>) -> bool {
        forall|k: int| 0 <= k < a.len() - 1 ==> #[trigger] a[k] > a[k + 1]
    }

    /// The set of labels occurring in a key sequence.
    pub open spec fn key_elems(a: Seq<usize>) -> Set<int> {
        Set::new(|m: int| exists|k: int| 0 <= k < a.len() && (#[trigger] a[k]) as int == m)
    }

    proof fn lemma_desc_le(a: Seq<usize>, i: int, k: int)
        requires
            Self::strict_desc(a),
            0 <= i <= k < a.len(),
        ensures
            a[k] <= a[i],
            i < k ==> a[k] < a[i],
        decreases k - i,
    {
        if i < k {
            Self::lemma_desc_le(a, i + 1, k);
        }
    }

    /// On strictly descending sequences, lexicographic comparison agrees
    /// with `key_lt` of the element sets.
    proof fn lemma_lex_is_key_lt(a: Seq<usize>, b: Seq<usize>)
        requires
            Self::strict_desc(a),
            Self::strict_desc(b),
        ensures
            Self::lex_less(a, b) == Self::key_lt(Self::key_elems(a), Self::key_elems(b)),
        decreases a.len() + b.len(),
    {
        let ea = Self::key_elems(a);
        let eb = Self::key_elems(b);
        if b.len() == 0 {
            assert(!Self::key_lt(ea, eb)) by {
                if Self::key_lt(ea, eb) {
                    let m = choose|m: int|
                        #[trigger] eb.contains(m) && !ea.contains(m) && (forall|x: int|
                            x > m ==> ((#[trigger] ea.contains(x)) <==> eb.contains(x)));
                    let k = choose|k: int| 0 <= k < b.len() && (#[trigger] b[k]) as int == m;
                    assert(false);
                }
            }
        } else if a.len() == 0 {
            let m = b[0] as int;
            assert(eb.contains(m)) by {
                assert((b[0]) as int == m);
            }
            assert(!ea.contains(m)) by {
                if ea.contains(m) {
                    let k = choose|k: int| 0 <= k < a.len() && (#[trigger] a[k]) as int == m;
                    assert(false);
                }
            }
            assert forall|x: int| x > m implies ((#[trigger] ea.contains(x)) <==> eb.contains(
                x,
            )) by {
                if eb.contains(x) {
                    let k = choose|k: int| 0 <= k < b.len() && (#[trigger] b[k]) as int == x;
                    Self::lemma_desc_le(b, 0, k);
                    assert(false);
                }
                if ea.contains(x) {
                    let k = choose|k: int| 0 <= k < a.len() && (#[trigger] a[k]) as int == x;
                    assert(false);
                }
            }
            assert(Self::key_lt(ea, eb));
        } else if a[0] < b[0] {
            let m = b[0] as int;
            assert(eb.contains(m)) by {
                assert((b[0]) as int == m);
            }
            assert(!ea.contains(m)) by {
                if ea.contains(m) {
                    let k = choose|k: int| 0 <= k < a.len() && (#[trigger] a[k]) as int == m;
                    Self::lemma_desc_le(a, 0, k);
                    assert(false);
                }
            }
            assert forall|x: int| x > m implies ((#[trigger] ea.contains(x)) <==> eb.contains(
                x,
            )) by {
                if eb.contains(x) {
                    let k = choose|k: int| 0 <= k < b.len() && (#[trigger] b[k]) as int == x;
                    Self::lemma_desc_le(b, 0, k);
                    assert(false);
                }
                if ea.contains(x) {
                    let k = choose|k: int| 0 <= k < a.len() && (#[trigger] a[k]) as int == x;
                    Self::lemma_desc_le(a, 0, k);
                    assert(false);
                }
            }
            assert(Self::key_lt(ea, eb));
            assert(Self::lex_less(a, b));
        } else if a[0] > b[0] {
            assert(!Self::lex_less(a, b));
            assert(!Self::key_lt(ea, eb)) by {
                if Self::key_lt(ea, eb) {
                    let m = choose|m: int|
                        #[trigger] eb.contains(m) && !ea.contains(m) && (forall|x: int|
                            x > m ==> ((#[trigger] ea.contains(x)) <==> eb.contains(x)));
                    let k = choose|k: int| 0 <= k < b.len() && (#[trigger] b[k]) as int == m;
                    Self::lemma_desc_le(b, 0, k);
                    let x = a[0] as int;
                    assert(x > m);
                    assert(ea.contains(x)) by {
                        assert((a[0]) as int == x);
                    }
                    assert(eb.contains(x));
                    let k2 = choose|k2: int| 0 <= k2 < b.len() && (#[trigger] b[k2]) as int == x;
                    Self::lemma_desc_le(b, 0, k2);
                    assert(false);
                }
            }
        } else {
            let c = a[0] as int;
            let ta = a.drop_first();
            let tb = b.drop_first();
            assert(Self::strict_desc(ta)) by {
                assert forall|k: int| 0 <= k < ta.len() - 1 implies #[trigger] ta[k] > ta[k
                    + 1] by {
                    assert(ta[k] == a[k + 1] && ta[k + 1] == a[k + 2]);
                }
            }
            assert(Self::strict_desc(tb)) by {
                assert forall|k: int| 0 <= k < tb.len() - 1 implies #[trigger] tb[k] > tb[k
                    + 1] by {
                    assert(tb[k] == b[k + 1] && tb[k + 1] == b[k + 2]);
                }
            }
            Self::lemma_lex_is_key_lt(ta, tb);
            assert(Self::key_elems(ta) =~= ea.remove(c)) by {
                assert forall|m: int|
                    Self::key_elems(ta).contains(m) implies ea.remove(c).contains(m) by {
                    let k = choose|k: int| 0 <= k < ta.len() && (#[trigger] ta[k]) as int == m;
                    assert(ta[k] == a[k + 1]);
                    assert((a[k + 1]) as int == m);
                    assert(ea.contains(m));
                    Self::lemma_desc_le(a, 0, k + 1);
                    assert(m != c);
                }
                assert forall|m: int|
                    ea.remove(c).contains(m) implies Self::key_elems(ta).contains(m) by {
                    let k = choose|k: int| 0 <= k < a.len() && (#[trigger] a[k]) as int == m;
                    assert(m != c);
                    assert(k != 0);
                    assert(ta[k - 1] == a[k]);
                    assert((ta[k - 1]) as int == m);
                }
            }
            assert(Self::key_elems(tb) =~= eb.remove(c)) by {
                assert forall|m: int|
                    Self::key_elems(tb).contains(m) implies eb.remove(c).contains(m) by {
                    let k = choose|k: int| 0 <= k < tb.len() && (#[trigger] tb[k]) as int == m;
                    assert(tb[k] == b[k + 1]);
                    assert((b[k + 1]) as int == m);
                    assert(eb.contains(m));
                    Self::lemma_desc_le(b, 0, k + 1);
                    assert(m != c);
                }
                assert forall|m: int|
                    eb.remove(c).contains(m) implies Self::key_elems(tb).contains(m) by {
                    let k = choose|k: int| 0 <= k < b.len() && (#[trigger] b[k]) as int == m;
                    assert(m != c);
                    assert(k != 0);
                    assert(tb[k - 1] == b[k]);
                    assert((tb[k - 1]) as int == m);
                }
            }
            assert(ea.contains(c)) by {
                assert((a[0]) as int == c);
            }
            assert(eb.contains(c)) by {
                assert((b[0]) as int == c);
            }
            Self::lemma_key_lt_remove(ea, eb, c);
            assert(Self::lex_less(a, b) == Self::lex_less(ta, tb));
        }
    }

    /// At every step of `order`, the labeled node's successor-label set is
    /// lexicographically minimal (under `key_lt`) among the eligible nodes.
    pub open spec fn gc_lex_min(self, order: Seq<int>) -> bool {
        forall|jj: int, h: int|
            0 <= jj < order.len() && #[trigger] self.eligible_at(order, jj, h) ==> !Self::key_lt(
                self.succ_label_set(order, h),
                self.succ_label_set(order, order[jj]),
            )
    }

    /// Appending a node that is not a successor of `x` (because all of
    /// `x`'s successors are already in `order`) leaves `x`'s
    /// successor-label set unchanged.
    proof fn lemma_label_set_stable(self, order: Seq<int>, b: int, x: int)
        requires
            self.wf(),
            self.in_range(x),
            self.in_range(b),
            !order.contains(b),
            forall|k: int|
                0 <= k < self.succ_handles(x).len() ==> order.contains(
                    (#[trigger] self.succ_handles(x)[k]) as int,
                ),
        ensures
            self.succ_label_set(order.push(b), x) =~= self.succ_label_set(order, x),
    {
        self.lemma_len_bound();
        let o2 = order.push(b);
        assert forall|jj: int|
            self.succ_label_set(o2, x).contains(jj) implies self.succ_label_set(
            order,
            x,
        ).contains(jj) by {
            if jj == order.len() {
                assert(o2[jj] == b);
                assert(self.succ_handles(x).contains((b) as usize));
                let k = choose|k: int|
                    0 <= k < self.succ_handles(x).len() && self.succ_handles(x)[k] == ((b) as usize);
                assert(order.contains((self.succ_handles(x)[k]) as int));
                assert(((b as usize)) as int == b);
                assert(false);
            } else {
                assert(o2[jj] == order[jj]);
            }
        }
        assert forall|jj: int|
            self.succ_label_set(order, x).contains(jj) implies self.succ_label_set(
            o2,
            x,
        ).contains(jj) by {
            assert(o2[jj] == order[jj]);
        }
    }

    /// Coffman-Graham-style priority list. Repeatedly, among the nodes
    /// whose direct successors are all labeled, label the one whose
    /// descending successor-label sequence is lexicographically smallest
    /// (remaining ties broken by arena order); the node labeled j-th from
    /// the start is placed j-th from the end of the result. The result is a
    /// permutation of the node universe in which every node precedes each
    /// of its direct successors, read off from a labeling order that is
    /// valid and lexicographically minimal at every step.
    pub fn gc_list(&self) -> (r: Vec<u128>)
        requires
            self.wf(),
            self.acyclic(),
        ensures
            r@.len() == self.n(),
            r@.no_duplicates(),
            forall|v: u128| #[trigger] r@.contains(v) <==> self.contains_val(v),
            forall|p: int, q: int|
                0 <= p < r@.len() && 0 <= q < r@.len() && #[trigger] self.edge_vals(r@[p], r@[q])
                    ==> p < q,
            exists|order: Seq<int>|
                #[trigger] self.gc_order_ok(order) && self.gc_lex_min(order) && (forall|jj: int|
                    0 <= jj < order.len() ==> r@[self.n() - 1 - jj] == self.val_of(
                        #[trigger] order[jj],
                    )),
    {
        let n = self.arena.len();
        let mut labeled: Vec<bool> = Vec::new();
        let mut labels: Vec<usize> = Vec::new();
        let mut out: Vec<u128> = Vec::new();
        let mut t: usize = 0;
        #[verifier::loop_isolation(false)]
        while t < n
            invariant
                t <= n,
                labeled@.len() == t,
                labels@.len() == t,
                out@.len() == t,
                forall|k: int| 0 <= k < t ==> !(#[trigger] labeled@[k]),
            decreases n - t,
        {
            labeled.push(false);
            labels.push(0);
            out.push(0);
            t = t + 1;
        }
        let ghost mut order: Seq<int> = Seq::empty();
        let mut j: usize = 0;
        #[verifier::loop_isolation(false)]
        while j < n
            invariant
                j <= n,
                labeled@.len() == n,
                labels@.len() == n,
                out@.len() == n,
                order.len() == j as int,
                forall|jj: int| 0 <= jj < j ==> self.in_range(#[trigger] order[jj]),
                forall|j1: int, j2: int|
                    0 <= j1 < j && 0 <= j2 < j && j1 != j2 ==> #[trigger] order[j1]
                        != #[trigger] order[j2],
                forall|jj: int| 0 <= jj < j ==> labels@[#[trigger] order[jj]] == jj,
                forall|h: int| self.in_range(h) ==> ((#[trigger] labeled@[h]) <==> order.contains(h)),
                forall|jj: int| 0 <= jj < j ==> out@[n - 1 - jj] == self.val_of(#[trigger] order[jj]),
                forall|u: int, v: int|
                    #[trigger] self.edge(u, v) && labeled@[u] ==> labeled@[v] && labels@[v]
                        < labels@[u],
                forall|jj: int| 0 <= jj < j ==> self.gc_step_ok(order, jj),
                forall|jj: int, h2: int|
                    0 <= jj < j && #[trigger] self.eligible_at(order, jj, h2) ==> !Self::key_lt(
                        self.succ_label_set(order, h2),
                        self.succ_label_set(order, order[jj]),
                    ),
            decreases n - j,
        {
            let mut best: usize = 0;
            let mut best_key: Vec<usize> = Vec::new();
            let mut have: bool = false;
            let mut h: usize = 0;
            #[verifier::loop_isolation(false)]
            while h < n
                invariant
                    h <= n,
                    have ==> self.eligible(labeled@, best as int),
                    have ==> Self::strict_desc(best_key@),
                    have ==> Self::key_elems(best_key@) == self.succ_label_set(
                        order,
                        best as int,
                    ),
                    !have ==> (forall|h2: int| 0 <= h2 < h ==> !(#[trigger] self.eligible(
                        labeled@,
                        h2,
                    ))),
                    have ==> (forall|h2: int|
                        0 <= h2 < h && #[trigger] self.eligible(labeled@, h2) ==> !Self::key_lt(
                            self.succ_label_set(order, h2),
                            self.succ_label_set(order, best as int),
                        )),
                decreases n - h,
            {
                if !labeled[h] && self.succs_all_labeled(&labeled, h) {
                    proof {
                        self.lemma_len_bound();
                        assert(self.node_ok(h as int));
                        assert forall|k1: int, k2: int|
                            0 <= k1 < self.succ_handles(h as int).len() && 0 <= k2
                                < self.succ_handles(h as int).len() && k1 != k2 implies labels@[(
                        #[trigger] self.succ_handles(h as int)[k1]) as int] != labels@[(
                        #[trigger] self.succ_handles(h as int)[k2]) as int] by {
                            let s1 = (self.succ_handles(h as int)[k1]) as int;
                            let s2 = (self.succ_handles(h as int)[k2]) as int;
                            assert(self.succ_handles(h as int)[k1] != self.succ_handles(
                                h as int,
                            )[k2]);
                            assert(s1 != s2);
                            assert(labeled@[s1] && labeled@[s2]);
                            assert(order.contains(s1) && order.contains(s2));
                            let j1 = choose|j1: int| 0 <= j1 < order.len() && order[j1] == s1;
                            let j2 = choose|j2: int| 0 <= j2 < order.len() && order[j2] == s2;
                            assert(labels@[s1] == j1 && labels@[s2] == j2);
                            assert(j1 != j2);
                        }
                    }
                    let key = self.succ_label_key(&labels, h);
                    proof {
                        assert forall|m: int|
                            Self::key_elems(key@).contains(m) implies self.succ_label_set(
                            order,
                            h as int,
                        ).contains(m) by {
                            let k = choose|k: int|
                                0 <= k < self.succ_handles(h as int).len() && (labels@[(
                                #[trigger] self.succ_handles(h as int)[k]) as int]) as int == m;
                            let sk = (self.succ_handles(h as int)[k]) as int;
                            assert(labeled@[sk]);
                            assert(order.contains(sk));
                            let jx = choose|jx: int| 0 <= jx < order.len() && order[jx] == sk;
                            assert(labels@[sk] == jx);
                            assert(m == jx);
                            assert(order[jx] == sk);
                            assert(((sk) as usize) == self.succ_handles(h as int)[k]);
                            assert(self.succ_handles(h as int).contains((order[jx]) as usize));
                        }
                        assert forall|m: int|
                            self.succ_label_set(order, h as int).contains(m) implies Self::key_elems(
                            key@,
                        ).contains(m) by {
                            assert(0 <= m < order.len());
                            assert(self.succ_handles(h as int).contains((order[m]) as usize));
                            let k = choose|k: int|
                                0 <= k < self.succ_handles(h as int).len() && self.succ_handles(
                                    h as int,
                                )[k] == ((order[m]) as usize);
                            let sk = (self.succ_handles(h as int)[k]) as int;
                            assert(sk == ((order[m]) as usize) as int);
                            assert(self.in_range(order[m]));
                            assert(sk == order[m]);
                            assert(labeled@[sk]);
                            assert(labels@[order[m]] == m);
                            assert((labels@[sk]) as int == m);
                        }
                        assert(Self::key_elems(key@) =~= self.succ_label_set(order, h as int));
                    }
                    if !have {
                        best = h;
                        best_key = key;
                        have = true;
                        proof {
                            assert forall|h2: int|
                                0 <= h2 < h + 1 && #[trigger] self.eligible(labeled@, h2) implies !Self::key_lt(
                                self.succ_label_set(order, h2),
                                self.succ_label_set(order, best as int),
                            ) by {
                                if h2 < h as int {
                                    assert(!self.eligible(labeled@, h2));
                                }
                            }
                        }
                    } else if lex_less_exec(&key, &best_key) {
                        proof {
                            Self::lemma_lex_is_key_lt(key@, best_key@);
                            assert(Self::key_lt(
                                self.succ_label_set(order, h as int),
                                self.succ_label_set(order, best as int),
                            ));
                            assert forall|h2: int|
                                0 <= h2 < h + 1 && #[trigger] self.eligible(labeled@, h2) implies !Self::key_lt(
                                self.succ_label_set(order, h2),
                                self.succ_label_set(order, h as int),
                            ) by {
                                if h2 < h as int {
                                    if Self::key_lt(
                                        self.succ_label_set(order, h2),
                                        self.succ_label_set(order, h as int),
                                    ) {
                                        Self::lemma_key_lt_trans(
                                            self.succ_label_set(order, h2),
                                            self.succ_label_set(order, h as int),
                                            self.succ_label_set(order, best as int),
                                        );
                                    }
                                } else {
                                    assert(h2 == h as int);
                                }
                            }
                        }
                        best = h;
                        best_key = key;
                    } else {
                        proof {
                            Self::lemma_lex_is_key_lt(key@, best_key@);
                            assert(!Self::key_lt(
                                self.succ_label_set(order, h as int),
                                self.succ_label_set(order, best as int),
                            ));
                        }
                    }
                    proof {
                        assert(self.eligible(labeled@, best as int));
                    }
                } else {
                    proof {
                        assert(!self.eligible(labeled@, h as int));
                        if have {
                            assert forall|h2: int|
                                0 <= h2 < h + 1 && #[trigger] self.eligible(labeled@, h2) implies !Self::key_lt(
                                self.succ_label_set(order, h2),
                                self.succ_label_set(order, best as int),
                            ) by {}
                        }
                    }
                }
                h = h + 1;
            }
            proof {
                if !have {
                    let rank = choose|rank: Seq<int>| self.respects_topo(rank);
                    assert(exists|h0: int| self.in_range(h0) && !(#[trigger] labeled@[h0])) by {
                        if forall|h0: int| self.in_range(h0) ==> #[trigger] labeled@[h0] {
                            assert forall|h0: int|
                                vstd::set_lib::set_int_range(0, n as int).contains(h0) implies order.to_set().contains(
                                h0,
                            ) by {
                                assert(self.in_range(h0));
                                assert(labeled@[h0]);
                                assert(order.contains(h0));
                            }
                            vstd::set_lib::lemma_int_range(0, n as int);
                            order.lemma_cardinality_of_set();
                            vstd::set_lib::lemma_len_subset(
                                vstd::set_lib::set_int_range(0, n as int),
                                order.to_set(),
                            );
                            assert(false);
                        }
                    }
                    let h0 = choose|h0: int| self.in_range(h0) && !(#[trigger] labeled@[h0]);
                    self.lemma_eligible_exists(labeled@, rank, h0);
                    let e = choose|e: int| #[trigger] self.eligible(labeled@, e);
                    assert(self.in_range(e));
                    assert(false);
                }
            }
            let ghost old_labeled = labeled@;
            let ghost old_labels = labels@;
            let ghost old_out = out@;
            let ghost old_order = order;
            let bv = self.arena[best].val;
            labeled[best] = true;
            labels[best] = j;
            out[n - 1 - j] = bv;
            proof {
                order = old_order.push(best as int);
                let bi = best as int;
                let ji = j as int;
                assert(labeled@ == old_labeled.update(bi, true));
                assert(labels@ == old_labels.update(bi, j));
                assert(out@ == old_out.update(n - 1 - ji, bv));
                assert(!old_labeled[bi]);
                assert(!old_order.contains(bi));
                assert forall|jj: int| 0 <= jj < j + 1 implies self.in_range(#[trigger] order[jj]) by {
                    if jj < ji {
                        assert(order[jj] == old_order[jj]);
                    }
                }
                assert forall|jj: int|
                    0 <= jj < j + 1 implies labels@[#[trigger] order[jj]] == jj by {
                    if jj < ji {
                        assert(order[jj] == old_order[jj]);
                        assert(old_order[jj] != bi);
                        assert(old_labels[old_order[jj]] == jj);
                    }
                }
                assert forall|h2: int|
                    self.in_range(h2) implies ((#[trigger] labeled@[h2]) <==> order.contains(
                    h2,
                )) by {
                    if h2 == bi {
                        assert(order[ji] == bi);
                        assert(order.contains(bi));
                    } else {
                        assert(labeled@[h2] == old_labeled[h2]);
                        assert(order.contains(h2) <==> (old_order.contains(h2) || h2 == bi));
                    }
                }
                assert forall|jj: int|
                    0 <= jj < j + 1 implies out@[n - 1 - jj] == self.val_of(
                    #[trigger] order[jj]) by {
                    if jj < ji {
                        assert(order[jj] == old_order[jj]);
                        assert(n - 1 - jj != n - 1 - ji);
                        assert(out@[n - 1 - jj] == old_out[n - 1 - jj]);
                    }
                }
                assert(order.take(ji) =~= old_order);
                assert forall|jj: int, h2: int|
                    0 <= jj < j + 1 && #[trigger] self.eligible_at(order, jj, h2) implies !Self::key_lt(
                    self.succ_label_set(order, h2),
                    self.succ_label_set(order, order[jj]),
                ) by {
                    assert(jj <= old_order.len());
                    assert(order.take(jj) =~= old_order.take(jj));
                    assert(self.in_range(h2));
                    assert forall|k: int|
                        0 <= k < self.succ_handles(h2).len() implies old_order.contains(
                        (#[trigger] self.succ_handles(h2)[k]) as int,
                    ) by {
                        assert(order.take(jj).contains((self.succ_handles(h2)[k]) as int));
                        let ix = choose|ix: int|
                            0 <= ix < order.take(jj).len() && order.take(jj)[ix] == ((
                            self.succ_handles(h2)[k]) as int);
                        assert(old_order[ix] == order.take(jj)[ix]);
                    }
                    self.lemma_label_set_stable(old_order, bi, h2);
                    assert(self.succ_label_set(order, h2) =~= self.succ_label_set(old_order, h2));
                    if jj < ji {
                        assert(order[jj] == old_order[jj]);
                        assert(self.eligible_at(old_order, jj, h2)) by {
                            assert(!old_order.take(jj).contains(h2));
                            assert forall|k: int|
                                0 <= k < self.succ_handles(h2).len() implies old_order.take(
                                jj,
                            ).contains((#[trigger] self.succ_handles(h2)[k]) as int) by {
                                assert(order.take(jj).contains((self.succ_handles(h2)[k]) as int));
                            }
                        }
                        assert(!Self::key_lt(
                            self.succ_label_set(old_order, h2),
                            self.succ_label_set(old_order, old_order[jj]),
                        ));
                        assert(self.gc_step_ok(old_order, jj));
                        assert forall|k: int|
                            0 <= k < self.succ_handles(old_order[jj]).len() implies old_order.contains(
                            (#[trigger] self.succ_handles(old_order[jj])[k]) as int,
                        ) by {
                            assert(old_order.take(jj).contains((self.succ_handles(
                                old_order[jj],
                            )[k]) as int));
                            let ix = choose|ix: int|
                                0 <= ix < old_order.take(jj).len() && old_order.take(jj)[ix] == ((
                                self.succ_handles(old_order[jj])[k]) as int);
                            assert(old_order[ix] == old_order.take(jj)[ix]);
                        }
                        assert(self.in_range(old_order[jj]));
                        self.lemma_label_set_stable(old_order, bi, old_order[jj]);
                        assert(self.succ_label_set(order, old_order[jj]) =~= self.succ_label_set(
                            old_order,
                            old_order[jj],
                        ));
                    } else {
                        assert(jj == ji);
                        assert(order[jj] == bi);
                        assert(self.eligible(old_labeled, h2)) by {
                            assert(!order.take(ji).contains(h2));
                            assert(!old_order.contains(h2));
                            assert(!old_labeled[h2]);
                            assert forall|k: int|
                                0 <= k < self.succ_handles(h2).len() implies old_labeled[(
                            #[trigger] self.succ_handles(h2)[k]) as int] by {
                                assert(old_order.contains((self.succ_handles(h2)[k]) as int));
                                assert(self.node_ok(h2));
                            }
                        }
                        assert(!Self::key_lt(
                            self.succ_label_set(old_order, h2),
                            self.succ_label_set(old_order, bi),
                        ));
                        assert(self.eligible(old_labeled, bi));
                        assert forall|k: int|
                            0 <= k < self.succ_handles(bi).len() implies old_order.contains(
                            (#[trigger] self.succ_handles(bi)[k]) as int,
                        ) by {
                            assert(old_labeled[(self.succ_handles(bi)[k]) as int]);
                            assert(self.node_ok(bi));
                        }
                        self.lemma_label_set_stable(old_order, bi, bi);
                        assert(self.succ_label_set(order, bi) =~= self.succ_label_set(
                            old_order,
                            bi,
                        ));
                    }
                }
                assert forall|jj: int| 0 <= jj < j + 1 implies self.gc_step_ok(order, jj) by {
                    assert(order.take(jj) =~= old_order.take(jj));
                    if jj < ji {
                        assert(order[jj] == old_order[jj]);
                        assert(self.gc_step_ok(old_order, jj));
                    } else {
                        assert(order[ji] == bi);
                        assert(order.take(ji) =~= old_order);
                        assert(self.eligible(old_labeled, bi));
                        assert(!old_labeled[bi]);
                        assert(!old_order.contains(bi));
                        assert forall|k: int|
                            0 <= k < self.succ_handles(bi).len() implies order.take(jj).contains(
                            (#[trigger] self.succ_handles(bi)[k]) as int,
                        ) by {
                            let sk = (self.succ_handles(bi)[k]) as int;
                            assert(old_labeled[sk]);
                            assert(self.node_ok(bi));
                            assert(self.in_range(sk));
                            assert(old_order.contains(sk));
                        }
                    }
                }
                assert forall|u: int, v: int|
                    #[trigger] self.edge(u, v) && labeled@[u] implies labeled@[v] && labels@[v]
                        < labels@[u] by {
                    self.lemma_len_bound();
                    if u == bi {
                        let k = choose|k: int|
                            0 <= k < self.succ_handles(bi).len() && self.succ_handles(bi)[k]
                                == (v as usize);
                        assert(old_labeled[(self.succ_handles(bi)[k]) as int]);
                        assert((v as usize) as int == v);
                        assert(old_labeled[v]);
                        assert(v != bi);
                        assert(labeled@[v]);
                        assert(old_order.contains(v));
                        let jj = choose|jj: int| 0 <= jj < old_order.len() && old_order[jj] == v;
                        assert(old_labels[v] == jj);
                        assert(labels@[v] == jj);
                        assert(jj < ji);
                        assert(labels@[u] == ji);
                    } else {
                        assert(labeled@[u] == old_labeled[u]);
                        assert(old_labeled[v]);
                        assert(v != bi);
                        assert(labels@[v] == old_labels[v] && labels@[u] == old_labels[u]);
                    }
                }
            }
            j = j + 1;
        }
        proof {
            assert(order.len() == n as int);
            assert forall|i1: int, i2: int|
                0 <= i1 < order.len() && 0 <= i2 < order.len() && i1 != i2 implies order[i1]
                != order[i2] by {}
            assert(order.no_duplicates());
            order.unique_seq_to_set();
            assert forall|h0: int|
                order.to_set().contains(h0) implies vstd::set_lib::set_int_range(
                0,
                n as int,
            ).contains(h0) by {
                let jj = choose|jj: int| 0 <= jj < order.len() && order[jj] == h0;
                assert(self.in_range(order[jj]));
            }
            vstd::set_lib::lemma_int_range(0, n as int);
            vstd::set_lib::lemma_subset_equality(
                order.to_set(),
                vstd::set_lib::set_int_range(0, n as int),
            );
            assert forall|h0: int| self.in_range(h0) implies order.contains(h0) by {
                assert(vstd::set_lib::set_int_range(0, n as int).contains(h0));
                assert(order.to_set().contains(h0));
            }
            assert forall|p1: int, p2: int|
                0 <= p1 < out@.len() && 0 <= p2 < out@.len() && p1 != p2 implies out@[p1]
                != out@[p2] by {
                let j1 = n - 1 - p1;
                let j2 = n - 1 - p2;
                assert(out@[p1] == self.val_of(order[j1]));
                assert(out@[p2] == self.val_of(order[j2]));
                assert(order[j1] != order[j2]);
            }
            assert forall|v: u128| #[trigger] out@.contains(v) implies self.contains_val(v) by {
                let p = choose|p: int| 0 <= p < out@.len() && out@[p] == v;
                let jj = n - 1 - p;
                assert(out@[p] == self.val_of(order[jj]));
                assert(self.in_range(order[jj]));
            }
            assert forall|v: u128| #[trigger] self.contains_val(v) implies out@.contains(v) by {
                let h0 = choose|h0: int| self.in_range(h0) && #[trigger] self.val_of(h0) == v;
                assert(order.contains(h0));
                let jj = choose|jj: int| 0 <= jj < order.len() && order[jj] == h0;
                assert(out@[n - 1 - jj] == self.val_of(h0));
            }
            assert(self.gc_order_ok(order));
            assert(self.gc_lex_min(order));
            assert forall|jj: int|
                0 <= jj < order.len() implies out@[self.n() - 1 - jj] == self.val_of(
                #[trigger] order[jj],
            ) by {}
            assert forall|p: int, q: int|
                0 <= p < out@.len() && 0 <= q < out@.len() && #[trigger] self.edge_vals(
                out@[p],
                out@[q],
            ) implies p < q by {
                let (u, v) = choose|u: int, v: int|
                    #[trigger] self.edge(u, v) && self.val_of(u) == out@[p] && self.val_of(v)
                        == out@[q];
                let ju = n - 1 - p;
                let jv = n - 1 - q;
                assert(out@[p] == self.val_of(order[ju]));
                assert(out@[q] == self.val_of(order[jv]));
                assert(u == order[ju]);
                assert(v == order[jv]);
                assert(labeled@[u]);
                assert(labels@[v] < labels@[u]);
                assert(labels@[order[ju]] == ju);
                assert(labels@[order[jv]] == jv);
                assert(jv < ju);
            }
        }
        out
    }

    /// Every identifier declared in `self` is declared in `other`.
    pub open spec fn vals_in(self, other: PrecedenceGraph) -> bool {
        forall|v: u128| #[trigger] self.contains_val(v) ==> other.contains_val(v)
    }

    /// Every edge of `self` is an edge of `other`.
    pub open spec fn edges_in(self, other: PrecedenceGraph) -> bool {
        forall|a: u128, b: u128| #[trigger] self.edge_vals(a, b) ==> other.edge_vals(a, b)
    }

    /// The two graphs have the same node universe and the same adjacency.
    pub open spec fn equiv(self, other: PrecedenceGraph) -> bool {
        &&& self.vals_in(other)
        &&& other.vals_in(self)
        &&& self.edges_in(other)
        &&& other.edges_in(self)
    }

    /// There is a direct edge from the node valued `a` to the node valued
    /// `b`.
    pub fn has_edge_val(&self, a: u128, b: u128) -> (r: bool)
        requires
            self.wf(),
        ensures
            r == self.edge_vals(a, b),
    {
        let fa = self.try_find_handle(a);
        let ha = match fa {
            Some(h) => h,
            None => {
                proof {
                    if self.edge_vals(a, b) {
                        let (u, v) = choose|u: int, v: int|
                            #[trigger] self.edge(u, v) && self.val_of(u) == a && self.val_of(v)
                                == b;
                        assert(self.contains_val(a));
                    }
                }
                return false;
            },
        };
        let fb = self.try_find_handle(b);
        let hb = match fb {
            Some(h) => h,
            None => {
                proof {
                    if self.edge_vals(a, b) {
                        let (u, v) = choose|u: int, v: int|
                            #[trigger] self.edge(u, v) && self.val_of(u) == a && self.val_of(v)
                                == b;
                        assert(self.contains_val(b));
                    }
                }
                return false;
            },
        };
        let r = vec_contains_handle(&self.arena[ha].succ, hb);
        proof {
            if r {
                assert(self.edge(ha as int, hb as int));
                assert(self.edge_vals(a, b));
            } else if self.edge_vals(a, b) {
                let (u, v) = choose|u: int, v: int|
                    #[trigger] self.edge(u, v) && self.val_of(u) == a && self.val_of(v) == b;
                assert(u == ha as int && v == hb as int);
                assert(false);
            }
        }
        r
    }

    /// Every node of `self` is declared in `other`; see `vals_in`.
    fn vals_subset(&self, other: &PrecedenceGraph) -> (r: bool)
        requires
            self.wf(),
            other.wf(),
        ensures
            r == self.vals_in(*other),
    {
        let n = self.arena.len();
        let mut h: usize = 0;
        #[verifier::loop_isolation(false)]
        while h < n
            invariant
                h <= n,
                forall|h2: int| 0 <= h2 < h ==> other.contains_val(#[trigger] self.val_of(h2)),
            decreases n - h,
        {
            let v = self.arena[h].val;
            assert(v == self.val_of(h as int));
            if other.try_find_handle(v).is_none() {
                proof {
                    assert(self.contains_val(v));
                    assert(!other.contains_val(v));
                }
                return false;
            }
            h = h + 1;
        }
        proof {
            assert forall|v: u128| #[trigger] self.contains_val(v) implies other.contains_val(
                v,
            ) by {
                let h2 = choose|h2: int| self.in_range(h2) && #[trigger] self.val_of(h2) == v;
                assert(other.contains_val(self.val_of(h2)));
            }
        }
        true
    }

    /// Every edge of `self` is an edge of `other`; see `edges_in`.
    fn edges_subset(&self, other: &PrecedenceGraph) -> (r: bool)
        requires
            self.wf(),
            other.wf(),
        ensures
            r == self.edges_in(*other),
    {
        let n = self.arena.len();
        let mut u: usize = 0;
        #[verifier::loop_isolation(false)]
        while u < n
            invariant
                u <= n,
                forall|u2: int, k: int|
                    0 <= u2 < u && 0 <= k < self.succ_handles(u2).len() ==> other.edge_vals(
                        self.val_of(u2),
                        self.val_of((#[trigger] self.succ_handles(u2)[k]) as int),
                    ),
            decreases n - u,
        {
            assert(self.node_ok(u as int));
            let m = self.arena[u].succ.len();
            let mut k: usize = 0;
            #[verifier::loop_isolation(false)]
            while k < m
                invariant
                    k <= m,
                    forall|k2: int|
                        0 <= k2 < k ==> other.edge_vals(
                            self.val_of(u as int),
                            self.val_of((#[trigger] self.succ_handles(u as int)[k2]) as int),
                        ),
                decreases m - k,
            {
                let sh = self.arena[u].succ[k];
                assert(self.succ_handles(u as int)[k as int] == sh);
                let sv = self.arena[sh].val;
                if !other.has_edge_val(self.arena[u].val, sv) {
                    proof {
                        assert(self.succ_handles(u as int).contains(sh));
                        assert(self.edge(u as int, sh as int));
                        assert(self.edge_vals(self.val_of(u as int), self.val_of(sh as int)));
                        assert(!other.edge_vals(self.val_of(u as int), self.val_of(sh as int)));
                    }
                    return false;
                }
                k = k + 1;
            }
            u = u + 1;
        }
        proof {
            self.lemma_len_bound();
            assert forall|a: u128, b: u128| #[trigger] self.edge_vals(a, b) implies other.edge_vals(
                a,
                b,
            ) by {
                let (x, y) = choose|x: int, y: int|
                    #[trigger] self.edge(x, y) && self.val_of(x) == a && self.val_of(y) == b;
                assert(self.succ_handles(x).contains(y as usize));
                let k = choose|k: int|
                    0 <= k < self.succ_handles(x).len() && self.succ_handles(x)[k] == (y as usize);
                assert((y as usize) as int == y);
                assert(other.edge_vals(self.val_of(x), self.val_of(self.succ_handles(x)[k] as int)));
            }
        }
        true
    }

    /// Equality of graphs as relations: same node universe and the same
    /// adjacency, regardless of arena order.
    pub fn graph_eq(&self, other: &PrecedenceGraph) -> (r: bool)
        requires
            self.wf(),
            other.wf(),
        ensures
            r == self.equiv(*other),
    {
        let a = self.vals_subset(other);
        let b = other.vals_subset(self);
        let c = self.edges_subset(other);
        let d = other.edges_subset(self);
        a && b && c && d
    }

    /// The edges form one simple chain visiting every node in the order
    /// `ord`: there is an edge from u to v exactly when v directly follows
    /// u in `ord`.
    pub open spec fn is_chain_order(self, ord: Seq<int>) -> bool {
        &&& ord.len() == self.n()
        &&& ord.no_duplicates()
        &&& (forall|p: int| 0 <= p < ord.len() ==> self.in_range(#[trigger] ord[p]))
        &&& (forall|u: int, v: int|
            #[trigger] self.edge(u, v) <==> (exists|p: int|
                0 <= p < ord.len() - 1 && #[trigger] ord[p] == u && ord[p + 1] == v))
    }

    /// A duplicate-free sequence of n in-range handles covers every handle.
    proof fn lemma_perm_onto(self, ord: Seq<int>)
        requires
            ord.len() == self.n(),
            ord.no_duplicates(),
            forall|p: int| 0 <= p < ord.len() ==> self.in_range(#[trigger] ord[p]),
        ensures
            forall|h: int| self.in_range(h) ==> ord.contains(h),
    {
        ord.unique_seq_to_set();
        assert forall|h0: int|
            ord.to_set().contains(h0) implies vstd::set_lib::set_int_range(
            0,
            self.n(),
        ).contains(h0) by {
            let p = choose|p: int| 0 <= p < ord.len() && ord[p] == h0;
            assert(self.in_range(ord[p]));
        }
        vstd::set_lib::lemma_int_range(0, self.n());
        vstd::set_lib::lemma_subset_equality(
            ord.to_set(),
            vstd::set_lib::set_int_range(0, self.n()),
        );
        assert forall|h: int| self.in_range(h) implies ord.contains(h) by {
            assert(vstd::set_lib::set_int_range(0, self.n()).contains(h));
            assert(ord.to_set().contains(h));
        }
    }

    /// Along a chain, the successor list of each node is exactly the
    /// single next node of the chain (empty for the last node).
    proof fn lemma_chain_succ_shape(self, ord: Seq<int>, p: int)
        requires
            self.wf(),
            self.is_chain_order(ord),
            0 <= p < ord.len(),
        ensures
            p == ord.len() - 1 ==> self.succ_handles(ord[p]) =~= Seq::<usize>::empty(),
            p < ord.len() - 1 ==> self.succ_handles(ord[p]) =~= seq![(ord[p + 1] as usize)],
    {
        self.lemma_len_bound();
        assert(self.node_ok(ord[p]));
        let hs = self.succ_handles(ord[p]);
        assert forall|k: int| 0 <= k < hs.len() implies p < ord.len() - 1 && (#[trigger] hs[k])
            == (ord[p + 1] as usize) by {
            let se = hs[k];
            assert(hs.contains(se));
            assert((se as int) < self.arena@.len());
            assert((se as usize) == se);
            assert(self.edge(ord[p], se as int));
            let q = choose|q: int|
                0 <= q < ord.len() - 1 && #[trigger] ord[q] == ord[p] && ord[q + 1] == (se as int);
            assert(q == p);
            assert((ord[p + 1] as usize) == se);
        }
        if p < ord.len() - 1 {
            assert(self.in_range(ord[p + 1]));
            assert(self.edge(ord[p], ord[p + 1])) by {
                assert(ord[p] == ord[p] && ord[p + 1] == ord[p + 1]);
            }
            assert(hs.contains((ord[p + 1]) as usize));
            assert(hs.len() >= 1);
            if hs.len() >= 2 {
                assert(hs[0] == (ord[p + 1] as usize) && hs[1] == (ord[p + 1] as usize));
                assert(false);
            }
            assert(hs =~= seq![(ord[p + 1] as usize)]) by {
                assert(hs.len() == 1);
                let k0 = choose|k0: int| 0 <= k0 < hs.len() && hs[k0] == ((ord[p + 1]) as usize);
                assert(hs[0] == (ord[p + 1] as usize));
            }
        } else {
            if hs.len() > 0 {
                let se = hs[0];
                assert(hs.contains(se));
                assert((se as int) < self.arena@.len());
                assert((se as usize) == se);
                assert(self.edge(ord[p], se as int));
                let q = choose|q: int|
                    0 <= q < ord.len() - 1 && #[trigger] ord[q] == ord[p] && ord[q + 1] == (
                    se as int);
                assert(q == p);
                assert(false);
            }
            assert(hs.len() == 0);
        }
    }

    /// Along a chain, every later node of the chain appears in the
    /// successor traversal, given enough fuel to walk to the end.
    proof fn lemma_chain_succs(self, ord: Seq<int>, p: int, fuel: nat)
        requires
            self.wf(),
            self.is_chain_order(ord),
            0 <= p < ord.len(),
            fuel >= ord.len() - 1 - p,
        ensures
            forall|q: int|
                p < q < ord.len() ==> self.succs_from(ord[p], fuel).contains(self.val_of(
                    #[trigger] ord[q],
                )),
        decreases ord.len() - p,
    {
        self.lemma_len_bound();
        self.lemma_chain_succ_shape(ord, p);
        if p < ord.len() - 1 {
            assert(self.in_range(ord[p + 1]));
            let x = (ord[p + 1]) as usize;
            assert(self.succs_from(ord[p], fuel) == self.succs_of_list(
                self.succ_handles(ord[p]),
                (fuel - 1) as nat,
            ));
            let sl = seq![x];
            assert(self.succ_handles(ord[p]) == sl);
            assert(sl.drop_last() =~= Seq::<usize>::empty());
            assert(sl.last() == x);
            assert(self.succs_of_list(sl, (fuel - 1) as nat) == self.succs_of_list(
                sl.drop_last(),
                (fuel - 1) as nat,
            ) + seq![self.val_of(x as int)] + self.succs_from(x as int, (fuel - 1) as nat));
            assert(self.succs_of_list(sl.drop_last(), (fuel - 1) as nat) =~= Seq::<u128>::empty());
            assert((x as int) == ord[p + 1]);
            self.lemma_chain_succs(ord, p + 1, (fuel - 1) as nat);
            assert forall|q: int|
                p < q < ord.len() implies self.succs_from(ord[p], fuel).contains(self.val_of(
                #[trigger] ord[q],
            )) by {
                let mid = seq![self.val_of(ord[p + 1])];
                let tail = self.succs_from(ord[p + 1], (fuel - 1) as nat);
                assert(self.succs_from(ord[p], fuel) == self.succs_of_list(
                    sl.drop_last(),
                    (fuel - 1) as nat,
                ) + mid + tail);
                if q == p + 1 {
                    assert(mid[0] == self.val_of(ord[q]));
                    assert(mid.contains(self.val_of(ord[q])));
                } else {
                    assert(tail.contains(self.val_of(ord[q])));
                }
            }
        }
    }

    /// Along a chain, the predecessor list of each node is exactly the
    /// single previous node of the chain (empty for the first node).
    proof fn lemma_chain_pred_shape(self, ord: Seq<int>, p: int)
        requires
            self.wf(),
            self.is_chain_order(ord),
            0 <= p < ord.len(),
        ensures
            p == 0 ==> self.pred_handles(ord[p]) =~= Seq::<usize>::empty(),
            p > 0 ==> self.pred_handles(ord[p]) =~= seq![(ord[p - 1] as usize)],
    {
        self.lemma_len_bound();
        assert(self.node_ok(ord[p]));
        let hs = self.pred_handles(ord[p]);
        assert forall|k: int| 0 <= k < hs.len() implies p > 0 && (#[trigger] hs[k]) == (ord[p - 1]
            as usize) by {
            let pe = hs[k];
            assert(hs.contains(pe));
            assert((pe as int) < self.arena@.len());
            assert(self.succ_handles(pe as int).contains(((ord[p]) as usize)) <==> self.pred_handles(
                (((ord[p]) as usize) as int),
            ).contains(((pe as int) as usize)));
            assert((((ord[p]) as usize) as int) == ord[p]);
            assert(((pe as int) as usize) == pe);
            assert(self.succ_handles(pe as int).contains(((ord[p]) as usize)));
            assert(self.edge(pe as int, ord[p]));
            let q = choose|q: int|
                0 <= q < ord.len() - 1 && #[trigger] ord[q] == (pe as int) && ord[q + 1] == ord[p];
            assert(q + 1 == p);
            assert((ord[p - 1] as usize) == pe);
        }
        if p > 0 {
            assert(self.in_range(ord[p - 1]));
            assert(self.edge(ord[p - 1], ord[p])) by {
                assert(ord[p - 1] == ord[p - 1] && ord[p] == ord[p]);
            }
            assert(self.succ_handles(ord[p - 1]).contains(((ord[p]) as usize)));
            assert(self.pred_handles((((ord[p]) as usize) as int)).contains(
                (((ord[p - 1]) as int) as usize),
            )) by {
                assert(self.succ_handles(ord[p - 1]).contains(((ord[p]) as usize))
                    <==> self.pred_handles((((ord[p]) as usize) as int)).contains(
                    (((ord[p - 1]) as int) as usize),
                ));
            }
            assert((((ord[p]) as usize) as int) == ord[p]);
            assert(hs.contains((ord[p - 1]) as usize));
            assert(hs.len() >= 1);
            if hs.len() >= 2 {
                assert(hs[0] == (ord[p - 1] as usize) && hs[1] == (ord[p - 1] as usize));
                assert(false);
            }
            assert(hs =~= seq![(ord[p - 1] as usize)]) by {
                assert(hs.len() == 1);
                let k0 = choose|k0: int| 0 <= k0 < hs.len() && hs[k0] == ((ord[p - 1]) as usize);
                assert(hs[0] == (ord[p - 1] as usize));
            }
        } else {
            if hs.len() > 0 {
                let pe = hs[0];
                assert(hs.contains(pe));
                assert((pe as int) < self.arena@.len());
                assert(((pe as int) as usize) == pe);
                assert(self.succ_handles(pe as int).contains(((ord[p]) as usize))
                    <==> self.pred_handles((((ord[p]) as usize) as int)).contains(
                    ((pe as int) as usize),
                ));
                assert((((ord[p]) as usize) as int) == ord[p]);
                assert(self.succ_handles(pe as int).contains(((ord[p]) as usize)));
                assert(self.edge(pe as int, ord[p]));
                let q = choose|q: int|
                    0 <= q < ord.len() - 1 && #[trigger] ord[q] == (pe as int) && ord[q + 1]
                        == ord[p];
                assert(q + 1 == p);
                assert(false);
            }
            assert(hs.len() == 0);
        }
    }

    /// Along a chain, every earlier node of the chain appears in the
    /// predecessor traversal, given enough fuel to walk to the start.
    proof fn lemma_chain_preds(self, ord: Seq<int>, p: int, fuel: nat)
        requires
            self.wf(),
            self.is_chain_order(ord),
            0 <= p < ord.len(),
            fuel >= p,
        ensures
            forall|q: int|
                0 <= q < p ==> self.preds_from(ord[p], fuel).contains(self.val_of(
                    #[trigger] ord[q],
                )),
        decreases p,
    {
        self.lemma_len_bound();
        self.lemma_chain_pred_shape(ord, p);
        if p > 0 {
            assert(self.in_range(ord[p - 1]));
            let x = (ord[p - 1]) as usize;
            assert(self.preds_from(ord[p], fuel) == self.preds_of_list(
                self.pred_handles(ord[p]),
                (fuel - 1) as nat,
            ));
            let sl = seq![x];
            assert(self.pred_handles(ord[p]) == sl);
            assert(sl.drop_last() =~= Seq::<usize>::empty());
            assert(sl.last() == x);
            assert(self.preds_of_list(sl, (fuel - 1) as nat) == self.preds_of_list(
                sl.drop_last(),
                (fuel - 1) as nat,
            ) + seq![self.val_of(x as int)] + self.preds_from(x as int, (fuel - 1) as nat));
            assert(self.preds_of_list(sl.drop_last(), (fuel - 1) as nat) =~= Seq::<u128>::empty());
            assert((x as int) == ord[p - 1]);
            self.lemma_chain_preds(ord, p - 1, (fuel - 1) as nat);
            assert forall|q: int|
                0 <= q < p implies self.preds_from(ord[p], fuel).contains(self.val_of(
                #[trigger] ord[q],
            )) by {
                let mid = seq![self.val_of(ord[p - 1])];
                let tail = self.preds_from(ord[p - 1], (fuel - 1) as nat);
                assert(self.preds_from(ord[p], fuel) == self.preds_of_list(
                    sl.drop_last(),
                    (fuel - 1) as nat,
                ) + mid + tail);
                if q == p - 1 {
                    assert(mid[0] == self.val_of(ord[q]));
                    assert(mid.contains(self.val_of(ord[q])));
                } else {
                    assert(tail.contains(self.val_of(ord[q])));
                }
            }
        }
    }

    /// The empty graph is a linear order, and so is any graph whose edges
    /// form one simple chain through all of its nodes.
    pub proof fn lemma_chain_is_linear_order(self, ord: Seq<int>)
        requires
            self.wf(),
            self.is_chain_order(ord),
        ensures
            self.spec_is_linear_order(),
    {
        if self.n() > 0 {
            self.lemma_perm_onto(ord);
            assert(ord.contains(0));
            let p0 = choose|p: int| 0 <= p < ord.len() && ord[p] == 0;
            let fuel = self.arena@.len() as nat;
            self.lemma_chain_succs(ord, p0, fuel);
            self.lemma_chain_preds(ord, p0, fuel);
            assert forall|h: int|
                self.in_range(h) implies self.comparable_val(0, #[trigger] self.val_of(h)) by {
                assert(ord.contains(h));
                let p = choose|p: int| 0 <= p < ord.len() && ord[p] == h;
                if p == p0 {
                    assert(self.val_of(h) == self.val_of(0));
                } else if p > p0 {
                    assert(self.succs_from(ord[p0], fuel).contains(self.val_of(ord[p])));
                    assert(self.succ_vals(0).contains(self.val_of(h)));
                } else {
                    assert(self.preds_from(ord[p0], fuel).contains(self.val_of(ord[p])));
                    assert(self.pred_vals(0).contains(self.val_of(h)));
                }
            }
        }
    }

    /// The arena is a `Vec`, so its length fits in `usize`.
    proof fn lemma_len_bound(self)
        ensures
            self.arena@.len() <= usize::MAX,
    {
        assert(self.arena.len() == self.arena@.len());
    }

    /// Both endpoints of the edge `e` are declared nodes.
    pub open spec fn edge_ok(nodes: Seq<u128>, e: (u128, u128)) -> bool {
        nodes.contains(e.0) && nodes.contains(e.1)
    }

    /// The endpoint of `e` that construction reports: the outcome endpoint
    /// when it is undeclared, the income endpoint otherwise.
    pub open spec fn bad_endpoint(nodes: Seq<u128>, e: (u128, u128)) -> u128 {
        if !nodes.contains(e.0) {
            e.0
        } else {
            e.1
        }
    }

    /// `g` is a well-formed graph whose node universe is exactly the set of
    /// identifiers in `nodes` and whose edge relation is exactly the set of
    /// pairs in `edges` (duplicates collapsed).
    pub open spec fn constructs(g: PrecedenceGraph, nodes: Seq<u128>, edges: Seq<(u128, u128)>) -> bool {
        &&& g.wf()
        &&& (forall|v: u128| #[trigger] g.contains_val(v) <==> nodes.contains(v))
        &&& (forall|a: u128, b: u128| #[trigger] g.edge_vals(a, b) <==> edges.contains((a, b)))
    }

    /// Validated construction from a declared node universe and an edge
    /// list. Succeeds exactly when every edge endpoint is declared;
    /// duplicate node declarations and duplicate edges collapse. Fails with
    /// `EdgeContainsNonexistentNode` naming the first offending endpoint
    /// (the outcome endpoint is checked before the income endpoint).
    pub fn new(nodes: Vec<u128>, edges: Vec<(u128, u128)>) -> (r: Result<
        PrecedenceGraph,
        PrecedenceGraphError,
    >)
        ensures
            (r is Ok) <==> (forall|k: int|
                0 <= k < edges@.len() ==> Self::edge_ok(nodes@, #[trigger] edges@[k])),
            r is Ok ==> Self::constructs(r->Ok_0, nodes@, edges@),
            r is Err ==> (exists|k: int|
                0 <= k < edges@.len() && !Self::edge_ok(nodes@, #[trigger] edges@[k]) && (forall|
                    k2: int,
                |
                    0 <= k2 < k ==> Self::edge_ok(nodes@, #[trigger] edges@[k2])) && r->Err_0 == (
                PrecedenceGraphError::EdgeContainsNonexistentNode {
                    node: Self::bad_endpoint(nodes@, edges@[k]),
                })),
    {
        let mut g = PrecedenceGraph { arena: Vec::new() };
        let nn = nodes.len();
        let mut i: usize = 0;
        #[verifier::loop_isolation(false)]
        while i < nn
            invariant
                i <= nn,
                g.wf(),
                forall|v: u128| #[trigger] g.contains_val(v) <==> nodes@.take(i as int).contains(v),
                forall|h: int| g.in_range(h) ==> (#[trigger] g.succ_handles(h)).len() == 0,
                forall|h: int| g.in_range(h) ==> (#[trigger] g.pred_handles(h)).len() == 0,
            decreases nn - i,
        {
            let v = nodes[i];
            let found = g.try_find_handle(v);
            if found.is_none() {
                let ghost g0 = g;
                g.arena.push(Node { val: v, succ: Vec::new(), pred: Vec::new() });
                proof {
                    let ln = g0.arena@.len() as int;
                    assert(g.arena@.len() == ln + 1);
                    assert(g.val_of(ln) == v);
                    assert(g.succ_handles(ln).len() == 0 && g.pred_handles(ln).len() == 0);
                    assert forall|h: int| 0 <= h < ln implies g.arena@[h] == g0.arena@[h] by {}
                    assert forall|h: int| 0 <= h < ln implies #[trigger] g.val_of(h) != v by {
                        if g.val_of(h) == v {
                            assert(g0.val_of(h) == v);
                            assert(g0.contains_val(v));
                        }
                    }
                    assert forall|h: int|
                        g.in_range(h) implies (#[trigger] g.succ_handles(h)).len() == 0 by {
                        if h < ln {
                            assert(g0.in_range(h));
                            assert((g0.succ_handles(h)).len() == 0);
                            assert(g.arena@[h] == g0.arena@[h]);
                        }
                    }
                    assert forall|h: int|
                        g.in_range(h) implies (#[trigger] g.pred_handles(h)).len() == 0 by {
                        if h < ln {
                            assert(g0.in_range(h));
                            assert((g0.pred_handles(h)).len() == 0);
                            assert(g.arena@[h] == g0.arena@[h]);
                        }
                    }
                    assert forall|h: int| g.in_range(h) implies #[trigger] g.node_ok(h) by {
                        assert((g.succ_handles(h)).len() == 0);
                        assert((g.pred_handles(h)).len() == 0);
                    }
                    assert forall|h1: int, h2: int|
                        g.in_range(h1) && g.in_range(h2) && h1 != h2 implies #[trigger] g.val_of(h1)
                            != #[trigger] g.val_of(h2) by {
                        if h1 < ln && h2 < ln {
                            assert(g0.val_of(h1) != g0.val_of(h2));
                        }
                    }
                    assert(g.wf());
                    assert forall|v2: u128| #[trigger] g.contains_val(v2) implies (nodes@.take(
                        i as int,
                    ).contains(v2) || v2 == v) by {
                        let h = choose|h: int| g.in_range(h) && #[trigger] g.val_of(h) == v2;
                        if h < ln {
                            assert(g0.val_of(h) == v2);
                            assert(g0.contains_val(v2));
                        }
                    }
                    assert forall|v2: u128|
                        nodes@.take(i as int).contains(v2) || v2 == v implies #[trigger] g.contains_val(
                            v2,
                        ) by {
                        if v2 == v {
                            assert(g.val_of(ln) == v2);
                        } else {
                            assert(g0.contains_val(v2));
                            let h = choose|h: int| g0.in_range(h) && #[trigger] g0.val_of(h) == v2;
                            assert(g.val_of(h) == v2);
                        }
                    }
                }
            }
            proof {
                assert(nodes@.take(i + 1) =~= nodes@.take(i as int).push(nodes@[i as int]));
            }
            i = i + 1;
        }
        proof {
            assert(nodes@.take(nn as int) =~= nodes@);
        }
        let en = edges.len();
        let mut k: usize = 0;
        #[verifier::loop_isolation(false)]
        while k < en
            invariant
                k <= en,
                g.wf(),
                forall|v: u128| #[trigger] g.contains_val(v) <==> nodes@.contains(v),
                forall|a: u128, b: u128| #[trigger] g.edge_vals(a, b) <==> edges@.take(
                    k as int,
                ).contains((a, b)),
                forall|k2: int| 0 <= k2 < k ==> Self::edge_ok(nodes@, #[trigger] edges@[k2]),
            decreases en - k,
        {
            let (a, b) = edges[k];
            assert(edges@[k as int] == (a, b));
            let fa = g.try_find_handle(a);
            let ha = match fa {
                Some(h) => h,
                None => {
                    proof {
                        assert(!nodes@.contains(a));
                        assert(!Self::edge_ok(nodes@, edges@[k as int]));
                        assert(Self::bad_endpoint(nodes@, edges@[k as int]) == a);
                    }
                    return Err(PrecedenceGraphError::EdgeContainsNonexistentNode { node: a });
                },
            };
            proof {
                assert(g.val_of(ha as int) == a);
                assert(g.contains_val(a));
            }
            let fb = g.try_find_handle(b);
            let hb = match fb {
                Some(h) => h,
                None => {
                    proof {
                        assert(nodes@.contains(a));
                        assert(!nodes@.contains(b));
                        assert(!Self::edge_ok(nodes@, edges@[k as int]));
                        assert(Self::bad_endpoint(nodes@, edges@[k as int]) == b);
                    }
                    return Err(PrecedenceGraphError::EdgeContainsNonexistentNode { node: b });
                },
            };
            proof {
                assert(g.val_of(hb as int) == b);
                assert(g.contains_val(b));
                assert(Self::edge_ok(nodes@, edges@[k as int]));
            }
            if !vec_contains_handle(&g.arena[ha].succ, hb) {
                g.add_edge(ha, hb);
                proof {
                    assert(g.edge(ha as int, hb as int));
                    assert(g.edge_vals(a, b));
                }
            } else {
                proof {
                    assert(g.edge(ha as int, hb as int));
                    assert(g.edge_vals(a, b));
                }
            }
            proof {
                assert(edges@.take(k + 1) =~= edges@.take(k as int).push((a, b)));
            }
            k = k + 1;
        }
        proof {
            assert(edges@.take(en as int) =~= edges@);
        }
        Ok(g)
    }

    /// Records the edge `ha -> hb` in both directions.
    fn add_edge(&mut self, ha: usize, hb: usize)
        requires
            old(self).wf(),
            old(self).in_range(ha as int),
            old(self).in_range(hb as int),
            !old(self).succ_handles(ha as int).contains(hb),
        ensures
            final(self).wf(),
            final(self).n() == old(self).n(),
            forall|h: int|
                old(self).in_range(h) ==> #[trigger] final(self).val_of(h) == old(self).val_of(h),
            forall|v: u128| #[trigger] final(self).contains_val(v) <==> old(self).contains_val(v),
            forall|u: int, v: int|
                #[trigger] final(self).edge(u, v) <==> (old(self).edge(u, v) || (u == ha as int && v
                    == hb as int)),
            forall|x: u128, y: u128|
                #[trigger] final(self).edge_vals(x, y) <==> (old(self).edge_vals(x, y) || (x == old(
                    self,
                ).val_of(ha as int) && y == old(self).val_of(hb as int))),
    {
        proof {
            assert(old(self).node_ok(ha as int));
            assert(old(self).node_ok(hb as int));
        }
        let mut sa = copy_handles(&self.arena[ha].succ);
        sa.push(hb);
        let na = Node {
            val: self.arena[ha].val,
            succ: sa,
            pred: copy_handles(&self.arena[ha].pred),
        };
        self.arena[ha] = na;
        let mut pb = copy_handles(&self.arena[hb].pred);
        pb.push(ha);
        let nb = Node {
            val: self.arena[hb].val,
            succ: copy_handles(&self.arena[hb].succ),
            pred: pb,
        };
        self.arena[hb] = nb;
        proof {
            let g0 = *old(self);
            let g1 = *self;
            assert((ha as int) as usize == ha);
            assert((hb as int) as usize == hb);
            assert forall|h: int| g1.in_range(h) implies #[trigger] g1.val_of(h) == g0.val_of(
                h,
            ) by {}
            assert(g1.succ_handles(ha as int) =~= g0.succ_handles(ha as int).push(hb));
            assert(g1.pred_handles(hb as int) =~= g0.pred_handles(hb as int).push(ha));
            assert forall|h: int|
                g1.in_range(h) && h != ha as int implies #[trigger] g1.succ_handles(h)
                    == g0.succ_handles(h) by {}
            assert forall|h: int|
                g1.in_range(h) && h != hb as int implies #[trigger] g1.pred_handles(h)
                    == g0.pred_handles(h) by {}
            assert forall|h: int| g1.in_range(h) implies #[trigger] g1.node_ok(h) by {
                assert(g0.node_ok(h));
                if h == ha as int {
                    assert(!g0.succ_handles(ha as int).contains(hb));
                    assert(g1.succ_handles(h).no_duplicates());
                }
                if h == hb as int {
                    assert(g0.pred_handles(hb as int).no_duplicates());
                    if g0.pred_handles(hb as int).contains(ha) {
                        assert(g0.succ_handles(ha as int).contains((hb as int) as usize)
                            <==> g0.pred_handles(hb as int).contains((ha as int) as usize));
                        assert(g0.succ_handles(ha as int).contains(hb));
                        assert(false);
                    }
                    assert(g1.pred_handles(h).no_duplicates());
                }
            }
            assert forall|u: int, v: int|
                g1.in_range(u) && g1.in_range(v) implies (#[trigger] g1.succ_handles(u).contains(
                v as usize,
            ) <==> #[trigger] g1.pred_handles(v).contains(u as usize)) by {
                g1.lemma_len_bound();
                assert((u as usize) as int == u);
                assert((v as usize) as int == v);
                assert(g0.succ_handles(u).contains(v as usize) <==> g0.pred_handles(v).contains(
                    u as usize,
                ));
                if u == ha as int {
                    assert(g1.succ_handles(u) =~= g0.succ_handles(u).push(hb));
                    assert(g1.succ_handles(u).contains(v as usize) <==> (g0.succ_handles(
                        u,
                    ).contains(v as usize) || v as usize == hb));
                    if v as usize == hb {
                        assert(v == hb as int);
                    }
                } else {
                    assert(g1.succ_handles(u) == g0.succ_handles(u));
                }
                if v == hb as int {
                    assert(g1.pred_handles(v) =~= g0.pred_handles(v).push(ha));
                    assert(g1.pred_handles(v).contains(u as usize) <==> (g0.pred_handles(
                        v,
                    ).contains(u as usize) || u as usize == ha));
                    if u as usize == ha {
                        assert(u == ha as int);
                    }
                } else {
                    assert(g1.pred_handles(v) == g0.pred_handles(v));
                }
            }
            assert(g1.wf());
            assert forall|u: int, v: int|
                #[trigger] g1.edge(u, v) <==> (g0.edge(u, v) || (u == ha as int && v
                    == hb as int)) by {
                if g1.in_range(u) && g1.in_range(v) {
                    g1.lemma_len_bound();
                    assert((v as usize) as int == v);
                    if u == ha as int {
                        assert(g1.succ_handles(u) =~= g0.succ_handles(u).push(hb));
                        assert(g1.succ_handles(u).contains(v as usize) <==> (g0.succ_handles(
                            u,
                        ).contains(v as usize) || v as usize == hb));
                        if v as usize == hb {
                            assert(v == hb as int);
                        }
                        if v == hb as int {
                            assert(v as usize == hb);
                        }
                    } else {
                        assert(g1.succ_handles(u) == g0.succ_handles(u));
                    }
                }
            }
            assert forall|v: u128| #[trigger] g1.contains_val(v) implies g0.contains_val(v) by {
                let h = choose|h: int| g1.in_range(h) && #[trigger] g1.val_of(h) == v;
                assert(g0.val_of(h) == v);
            }
            assert forall|v: u128| #[trigger] g0.contains_val(v) implies g1.contains_val(v) by {
                let h = choose|h: int| g0.in_range(h) && #[trigger] g0.val_of(h) == v;
                assert(g1.val_of(h) == v);
            }
            assert forall|x: u128, y: u128| #[trigger] g1.edge_vals(x, y) implies (g0.edge_vals(
                x,
                y,
            ) || (x == g0.val_of(ha as int) && y == g0.val_of(hb as int))) by {
                let (u, v) = choose|u: int, v: int|
                    #[trigger] g1.edge(u, v) && g1.val_of(u) == x && g1.val_of(v) == y;
                assert(g1.edge(u, v));
                if !(u == ha as int && v == hb as int) {
                    assert(g0.edge(u, v));
                    assert(g0.val_of(u) == x && g0.val_of(v) == y);
                }
            }
            assert forall|x: u128, y: u128|
                g0.edge_vals(x, y) implies #[trigger] g1.edge_vals(x, y) by {
                let (u, v) = choose|u: int, v: int|
                    #[trigger] g0.edge(u, v) && g0.val_of(u) == x && g0.val_of(v) == y;
                assert(g0.edge(u, v));
                assert(g1.edge(u, v));
                assert(g1.val_of(u) == x && g1.val_of(v) == y);
            }
            assert(g1.edge(ha as int, hb as int));
            assert(g1.edge_vals(g0.val_of(ha as int), g0.val_of(hb as int)));
        }
    }

    /// The handle of the node valued `v`, if it is declared.
    pub fn try_find_handle(&self, v: u128) -> (r: Option<usize>)
        requires
            self.wf(),
        ensures
            match r {
                Some(h) => self.in_range(h as int) && self.val_of(h as int) == v && h as int
                    == self.handle_of(v),
                None => !self.contains_val(v),
            },
    {
        let n = self.arena.len();
        let mut k: usize = 0;
        #[verifier::loop_isolation(false)]
        while k < n
            invariant
                k <= n,
                forall|h0: int| 0 <= h0 < k ==> #[trigger] self.val_of(h0) != v,
            decreases n - k,
        {
            if self.arena[k].val == v {
                proof {
                    assert(self.val_of(k as int) == v);
                    let w = self.handle_of(v);
                    assert(self.in_range(w) && self.val_of(w) == v);
                    assert(w == k as int);
                }
                return Some(k);
            }
            k = k + 1;
        }
        proof {
            if self.contains_val(v) {
                let w = choose|h0: int| self.in_range(h0) && #[trigger] self.val_of(h0) == v;
                assert(self.val_of(w) == v);
                assert(false);
            }
        }
        None
    }

    /// Number of declared nodes.
    pub fn node_count(&self) -> (r: usize)
        ensures
            r == self.arena@.len(),
    {
        self.arena.len()
    }

    /// The handle of the node valued `v`.
    pub(crate) fn find_handle(&self, v: u128) -> (h: usize)
        requires
            self.wf(),
            self.contains_val(v),
        ensures
            self.in_range(h as int),
            self.val_of(h as int) == v,
            h as int == self.handle_of(v),
    {
        let n = self.arena.len();
        let mut k: usize = 0;
        #[verifier::loop_isolation(false)]
        while k < n
            invariant
                k <= n,
                forall|h0: int| 0 <= h0 < k ==> #[trigger] self.val_of(h0) != v,
            decreases n - k,
        {
            if self.arena[k].val == v {
                proof {
                    assert(self.val_of(k as int) == v);
                    let w = self.handle_of(v);
                    assert(self.in_range(w) && self.val_of(w) == v);
                    assert(w == k as int);
                }
                return k;
            }
            k = k + 1;
        }
        proof {
            let w = choose|h0: int| self.in_range(h0) && #[trigger] self.val_of(h0) == v;
            assert(self.val_of(w) == v);
            assert(false);
        }
        0
    }

    /// A copy of the node record valued `v`, if it is declared.
    pub fn get_node(&self, v: u128) -> (r: Option<Node>)
        requires
            self.wf(),
        ensures
            match r {
                Some(nd) => self.contains_val(v) && nd.val == v,
                None => !self.contains_val(v),
            },
    {
        let n = self.arena.len();
        let mut k: usize = 0;
        #[verifier::loop_isolation(false)]
        while k < n
            invariant
                k <= n,
                forall|h0: int| 0 <= h0 < k ==> #[trigger] self.val_of(h0) != v,
            decreases n - k,
        {
            if self.arena[k].val == v {
                assert(self.val_of(k as int) == v);
                let nd = Node {
                    val: self.arena[k].val,
                    succ: copy_handles(&self.arena[k].succ),
                    pred: copy_handles(&self.arena[k].pred),
                };
                return Some(nd);
            }
            k = k + 1;
        }
        None
    }

    /// Depth-bounded transitive-successor traversal; see `succs_from`.
    pub(crate) fn all_succs_from(&self, h: usize, fuel: usize) -> (r: Vec<u128>)
        requires
            self.wf(),
            self.in_range(h as int),
        ensures
            r@ == self.succs_from(h as int, fuel as nat),
        decreases fuel,
    {
        let mut r: Vec<u128> = Vec::new();
        if fuel == 0 {
            assert(r@ =~= self.succs_from(h as int, fuel as nat));
            return r;
        }
        let m = self.arena[h].succ.len();
        let mut k: usize = 0;
        #[verifier::loop_isolation(false)]
        while k < m
            invariant
                k <= m,
                r@ == self.succs_of_list(self.succ_handles(h as int).take(k as int), (fuel - 1) as nat),
            decreases m - k,
        {
            assert(self.node_ok(h as int));
            let s: usize = self.arena[h].succ[k];
            assert(self.succ_handles(h as int)[k as int] == s);
            r.push(self.arena[s].val);
            let mut sub = self.all_succs_from(s, fuel - 1);
            r.append(&mut sub);
            proof {
                let hs = self.succ_handles(h as int);
                assert(hs.take(k + 1).drop_last() =~= hs.take(k as int));
                assert(hs.take(k + 1).last() == s);
            }
            k = k + 1;
        }
        proof {
            assert(self.succ_handles(h as int).take(m as int) =~= self.succ_handles(h as int));
        }
        r
    }

    /// Depth-bounded transitive-predecessor traversal; see `preds_from`.
    pub(crate) fn all_preds_from(&self, h: usize, fuel: usize) -> (r: Vec<u128>)
        requires
            self.wf(),
            self.in_range(h as int),
        ensures
            r@ == self.preds_from(h as int, fuel as nat),
        decreases fuel,
    {
        let mut r: Vec<u128> = Vec::new();
        if fuel == 0 {
            assert(r@ =~= self.preds_from(h as int, fuel as nat));
            return r;
        }
        let m = self.arena[h].pred.len();
        let mut k: usize = 0;
        #[verifier::loop_isolation(false)]
        while k < m
            invariant
                k <= m,
                r@ == self.preds_of_list(self.pred_handles(h as int).take(k as int), (fuel - 1) as nat),
            decreases m - k,
        {
            assert(self.node_ok(h as int));
            let s: usize = self.arena[h].pred[k];
            assert(self.pred_handles(h as int)[k as int] == s);
            r.push(self.arena[s].val);
            let mut sub = self.all_preds_from(s, fuel - 1);
            r.append(&mut sub);
            proof {
                let hs = self.pred_handles(h as int);
                assert(hs.take(k + 1).drop_last() =~= hs.take(k as int));
                assert(hs.take(k + 1).last() == s);
            }
            k = k + 1;
        }
        proof {
            assert(self.pred_handles(h as int).take(m as int) =~= self.pred_handles(h as int));
        }
        r
    }
    /// The deduplicated union of the node at `h` with its transitive
    /// predecessors and successors; see `comparable_val`.
    pub(crate) fn comparable_from(&self, h: usize) -> (r: Vec<u128>)
        requires
            self.wf(),
            self.in_range(h as int),
        ensures
            r@.no_duplicates(),
            forall|v: u128| #[trigger] r@.contains(v) <==> self.comparable_val(h as int, v),
    {
        let n = self.arena.len();
        let mut r: Vec<u128> = Vec::new();
        r.push(self.arena[h].val);
        let preds = self.all_preds_from(h, n);
        let m1 = preds.len();
        let mut k: usize = 0;
        #[verifier::loop_isolation(false)]
        while k < m1
            invariant
                k <= m1,
                r@.no_duplicates(),
                forall|v: u128| #[trigger] r@.contains(v) <==> (v == self.val_of(h as int)
                    || preds@.take(k as int).contains(v)),
            decreases m1 - k,
        {
            let p = preds[k];
            if !vec_contains_val(&r, p) {
                r.push(p);
            }
            proof {
                assert(preds@.take(k + 1) =~= preds@.take(k as int).push(preds@[k as int]));
                assert forall|v: u128| #[trigger] preds@.take(k + 1).contains(v) implies (
                    preds@.take(k as int).contains(v) || v == preds@[k as int]) by {
                    let i = choose|i: int| 0 <= i < preds@.take(k + 1).len() && #[trigger] preds@.take(k + 1)[i] == v;
                    if i < k {
                        assert(preds@.take(k as int)[i] == v);
                    }
                }
            }
            k = k + 1;
        }
        proof {
            assert(preds@.take(m1 as int) =~= preds@);
        }
        let succs = self.all_succs_from(h, n);
        let m2 = succs.len();
        let mut k2: usize = 0;
        #[verifier::loop_isolation(false)]
        while k2 < m2
            invariant
                k2 <= m2,
                r@.no_duplicates(),
                forall|v: u128| #[trigger] r@.contains(v) <==> (v == self.val_of(h as int)
                    || preds@.contains(v) || succs@.take(k2 as int).contains(v)),
            decreases m2 - k2,
        {
            let s = succs[k2];
            if !vec_contains_val(&r, s) {
                r.push(s);
            }
            proof {
                assert(succs@.take(k2 + 1) =~= succs@.take(k2 as int).push(succs@[k2 as int]));
                assert forall|v: u128| #[trigger] succs@.take(k2 + 1).contains(v) implies (
                    succs@.take(k2 as int).contains(v) || v == succs@[k2 as int]) by {
                    let i = choose|i: int|
                        0 <= i < succs@.take(k2 + 1).len() && #[trigger] succs@.take(k2 + 1)[i] == v;
                    if i < k2 {
                        assert(succs@.take(k2 as int)[i] == v);
                    }
                }
            }
            k2 = k2 + 1;
        }
        proof {
            assert(succs@.take(m2 as int) =~= succs@);
        }
        r
    }

    /// The chain walk of `is_succ_linear_order_without`; see `chain_from`.
    pub(crate) fn chain_walk(&self, h: usize, excluded: &Vec<u128>) -> (r: bool)
        requires
            self.wf(),
            self.in_range(h as int),
        ensures
            r == self.spec_chain_ok(h as int, excluded@),
    {
        let n = self.arena.len();
        let mut cur: usize = h;
        let mut fuel: usize = n;
        #[verifier::loop_isolation(false)]
        loop
            invariant
                self.in_range(cur as int),
                self.spec_chain_ok(h as int, excluded@) == self.chain_from(
                    cur as int,
                    excluded@,
                    fuel as nat,
                ),
            decreases fuel,
        {
            assert(self.node_ok(cur as int));
            let m = self.arena[cur].succ.len();
            let mut q: Vec<usize> = Vec::new();
            let mut k: usize = 0;
            #[verifier::loop_isolation(false)]
            while k < m
                invariant
                    k <= m,
                    q@ == self.qual_of_list(self.succ_handles(cur as int).take(k as int), excluded@),
                    forall|i: int| 0 <= i < q@.len() ==> (#[trigger] q@[i]) < self.arena@.len(),
                decreases m - k,
            {
                let s: usize = self.arena[cur].succ[k];
                assert(self.succ_handles(cur as int)[k as int] == s);
                if !vec_contains_val(excluded, self.arena[s].val) {
                    q.push(s);
                }
                proof {
                    let hs = self.succ_handles(cur as int);
                    assert(hs.take(k + 1).drop_last() =~= hs.take(k as int));
                    assert(hs.take(k + 1).last() == s);
                }
                k = k + 1;
            }
            proof {
                assert(self.succ_handles(cur as int).take(m as int) =~= self.succ_handles(
                    cur as int,
                ));
            }
            if q.len() > 1 {
                return false;
            }
            if q.len() == 0 {
                return true;
            }
            if fuel == 0 {
                return true;
            }
            cur = q[0];
            fuel = fuel - 1;
        }
    }
}

/// Strict lexicographic comparison of two label sequences.
fn lex_less_exec(a: &Vec<usize>, b: &Vec<usize>) -> (r: bool)
    ensures
        r == PrecedenceGraph::lex_less(a@, b@),
{
    let an = a.len();
    let bn = b.len();
    let mut i: usize = 0;
    proof {
        assert(a@.skip(0) =~= a@);
        assert(b@.skip(0) =~= b@);
    }
    #[verifier::loop_isolation(false)]
    while i < an && i < bn
        invariant
            i <= an,
            i <= bn,
            PrecedenceGraph::lex_less(a@, b@) == PrecedenceGraph::lex_less(
                a@.skip(i as int),
                b@.skip(i as int),
            ),
        decreases an - i,
    {
        let x = a[i];
        let y = b[i];
        proof {
            assert(a@.skip(i as int)[0] == a@[i as int]);
            assert(b@.skip(i as int)[0] == b@[i as int]);
        }
        if x < y {
            return true;
        }
        if x > y {
            return false;
        }
        proof {
            assert(a@.skip(i as int).drop_first() =~= a@.skip(i + 1));
            assert(b@.skip(i as int).drop_first() =~= b@.skip(i + 1));
        }
        i = i + 1;
    }
    proof {
        assert(a@.skip(i as int).len() == an - i);
        assert(b@.skip(i as int).len() == bn - i);
    }
    if i < bn {
        return true;
    }
    false
}

/// Every identifier of `a` occurs in `b`.
fn seq_subset_exec(a: &Vec<u128>, b: &Vec<u128>) -> (r: bool)
    ensures
        r == PrecedenceGraph::seq_subset(a@, b@),
{
    let n = a.len();
    let mut k: usize = 0;
    #[verifier::loop_isolation(false)]
    while k < n
        invariant
            k <= n,
            forall|i: int| 0 <= i < k ==> b@.contains(#[trigger] a@[i]),
        decreases n - k,
    {
        if !vec_contains_val(b, a[k]) {
            proof {
                assert(a@.contains(a@[k as int]));
            }
            return false;
        }
        k = k + 1;
    }
    proof {
        assert forall|v: u128| #[trigger] a@.contains(v) implies b@.contains(v) by {
            let i = choose|i: int| 0 <= i < a@.len() && a@[i] == v;
            assert(b@.contains(a@[i]));
        }
    }
    true
}

/// Membership of `x` in a handle list.
fn vec_contains_handle(v: &Vec<usize>, x: usize) -> (r: bool)
    ensures
        r == v@.contains(x),
{
    let n = v.len();
    let mut k: usize = 0;
    #[verifier::loop_isolation(false)]
    while k < n
        invariant
            k <= n,
            forall|i: int| 0 <= i < k ==> v@[i] != x,
        decreases n - k,
    {
        if v[k] == x {
            return true;
        }
        k = k + 1;
    }
    false
}

/// Membership of `x` in an identifier list.
pub(crate) fn vec_contains_val(v: &Vec<u128>, x: u128) -> (r: bool)
    ensures
        r == v@.contains(x),
{
    let n = v.len();
    let mut k: usize = 0;
    #[verifier::loop_isolation(false)]
    while k < n
        invariant
            k <= n,
            forall|i: int| 0 <= i < k ==> v@[i] != x,
        decreases n - k,
    {
        if v[k] == x {
            return true;
        }
        k = k + 1;
    }
    false
}

/// A handle-for-handle copy of a successor or predecessor list.
fn copy_handles(src: &Vec<usize>) -> (r: Vec<usize>)
    ensures
        r@ == src@,
{
    let mut r: Vec<usize> = Vec::new();
    let n = src.len();
    let mut k: usize = 0;
    #[verifier::loop_isolation(false)]
    while k < n
        invariant
            k <= n,
            r@ == src@.take(k as int),
        decreases n - k,
    {
        r.push(src[k]);
        proof {
            assert(src@.take(k + 1) =~= src@.take(k as int).push(src@[k as int]));
        }
        k = k + 1;
    }
    proof {
        assert(src@.take(n as int) =~= src@);
    }
    r
}

} // verus!
