use vstd::prelude::*;

use crate::precedence_graph::PrecedenceGraph;
use crate::precedence_graph::PrecedenceGraphError;

verus! {

broadcast use vstd::seq_lib::lemma_seq_contains_after_push;

/// The identifier `v` is either declared explicitly in `nodes` or occurs
/// as an endpoint of some edge in `edges`.
pub open spec fn declared_or_endpoint(nodes: Seq<u128>, edges: Seq<(u128, u128)>, v: u128) -> bool {
    nodes.contains(v) || exists|k: int|
        0 <= k < edges.len() && ((#[trigger] edges[k]).0 == v || edges[k].1 == v)
}

/// Convenience builder: unions every edge endpoint into the declared node
/// set and forwards to `PrecedenceGraph::new`. Since every endpoint is
/// then declared, construction always succeeds.
pub fn create_graph(nodes: Vec<u128>, edges: Vec<(u128, u128)>) -> (r: Result<
    PrecedenceGraph,
    PrecedenceGraphError,
>)
    ensures
        r is Ok,
        (r->Ok_0).wf(),
        forall|v: u128| #[trigger] (r->Ok_0).contains_val(v) <==> declared_or_endpoint(
            nodes@,
            edges@,
            v,
        ),
        forall|a: u128, b: u128| #[trigger] (r->Ok_0).edge_vals(a, b) <==> edges@.contains((a, b)),
{
    let mut all: Vec<u128> = Vec::new();
    let nn = nodes.len();
    let mut i: usize = 0;
    #[verifier::loop_isolation(false)]
    while i < nn
        invariant
            i <= nn,
            all@ == nodes@.take(i as int),
        decreases nn - i,
    {
        all.push(nodes[i]);
        proof {
            assert(nodes@.take(i + 1) =~= nodes@.take(i as int).push(nodes@[i as int]));
        }
        i = i + 1;
    }
    proof {
        assert(nodes@.take(nn as int) =~= nodes@);
    }
    let en = edges.len();
    let mut k: usize = 0;
    #[verifier::loop_isolation(false)]
    while k < en
        invariant
            k <= en,
            forall|v: u128| #[trigger] all@.contains(v) <==> declared_or_endpoint(
                nodes@,
                edges@.take(k as int),
                v,
            ),
        decreases en - k,
    {
        let (a, b) = edges[k];
        assert(edges@[k as int] == (a, b));
        let ghost old_all = all@;
        all.push(a);
        all.push(b);
        proof {
            assert forall|v: u128| #[trigger] all@.contains(v) implies declared_or_endpoint(
                nodes@,
                edges@.take(k + 1),
                v,
            ) by {
                if v == a || v == b {
                    assert(edges@.take(k + 1)[k as int] == (a, b));
                } else {
                    assert(old_all.contains(v));
                    assert(declared_or_endpoint(nodes@, edges@.take(k as int), v));
                    if !nodes@.contains(v) {
                        let k2 = choose|k2: int|
                            0 <= k2 < edges@.take(k as int).len() && ((#[trigger] edges@.take(
                                k as int,
                            )[k2]).0 == v || edges@.take(k as int)[k2].1 == v);
                        assert(edges@.take(k + 1)[k2] == edges@.take(k as int)[k2]);
                    }
                }
            }
            assert forall|v: u128|
                declared_or_endpoint(nodes@, edges@.take(k + 1), v) implies #[trigger] all@.contains(
                v,
            ) by {
                if nodes@.contains(v) {
                    assert(old_all.contains(v));
                } else {
                    let k2 = choose|k2: int|
                        0 <= k2 < edges@.take(k + 1).len() && ((#[trigger] edges@.take(
                            k + 1,
                        )[k2]).0 == v || edges@.take(k + 1)[k2].1 == v);
                    if k2 < k {
                        assert(edges@.take(k + 1)[k2] == edges@.take(k as int)[k2]);
                        assert(declared_or_endpoint(nodes@, edges@.take(k as int), v));
                        assert(old_all.contains(v));
                    } else {
                        assert(edges@.take(k + 1)[k2] == (a, b));
                    }
                }
            }
        }
        k = k + 1;
    }
    proof {
        assert(edges@.take(en as int) =~= edges@);
    }
    let ghost all_seq = all@;
    let ghost edges_seq = edges@;
    proof {
        assert forall|k2: int|
            0 <= k2 < edges_seq.len() implies PrecedenceGraph::edge_ok(
            all_seq,
            #[trigger] edges_seq[k2],
        ) by {
            let e = edges_seq[k2];
            assert(declared_or_endpoint(nodes@, edges_seq, e.0));
            assert(declared_or_endpoint(nodes@, edges_seq, e.1));
            assert(all_seq.contains(e.0));
            assert(all_seq.contains(e.1));
        }
    }
    let r = PrecedenceGraph::new(all, edges);
    proof {
        assert(r is Ok);
        let g = r->Ok_0;
        assert forall|v: u128| #[trigger] g.contains_val(v) <==> declared_or_endpoint(
            nodes@,
            edges_seq,
            v,
        ) by {
            assert(g.contains_val(v) <==> all_seq.contains(v));
        }
    }
    r
}

/// Round trip: building the same (nodes, edges) pair twice — directly
/// through `PrecedenceGraph::new` (which demands that every edge endpoint
/// be declared), and through the convenience builder `create_graph` —
/// yields equal graphs: the same node universe and the same adjacency.
/// The two hypotheses are exactly the postconditions of the two
/// constructors on a shared input.
pub proof fn lemma_round_trip(
    g1: PrecedenceGraph,
    g2: PrecedenceGraph,
    nodes: Seq<u128>,
    edges: Seq<(u128, u128)>,
)
    requires
        forall|k: int|
            0 <= k < edges.len() ==> PrecedenceGraph::edge_ok(nodes, #[trigger] edges[k]),
        PrecedenceGraph::constructs(g1, nodes, edges),
        g2.wf(),
        forall|v: u128| #[trigger] g2.contains_val(v) <==> declared_or_endpoint(nodes, edges, v),
        forall|a: u128, b: u128| #[trigger] g2.edge_vals(a, b) <==> edges.contains((a, b)),
    ensures
        g1.equiv(g2),
{
    assert forall|v: u128| #[trigger] g2.contains_val(v) implies g1.contains_val(v) by {
        if !nodes.contains(v) {
            let k = choose|k: int|
                0 <= k < edges.len() && ((#[trigger] edges[k]).0 == v || edges[k].1 == v);
            assert(PrecedenceGraph::edge_ok(nodes, edges[k]));
        }
    }
    assert forall|v: u128| #[trigger] g1.contains_val(v) implies g2.contains_val(v) by {
        assert(nodes.contains(v));
    }
    assert forall|a: u128, b: u128| #[trigger] g1.edge_vals(a, b) implies g2.edge_vals(a, b) by {
        assert(edges.contains((a, b)));
    }
    assert forall|a: u128, b: u128| #[trigger] g2.edge_vals(a, b) implies g1.edge_vals(a, b) by {
        assert(edges.contains((a, b)));
    }
}

} // verus!
