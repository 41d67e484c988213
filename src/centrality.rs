use vstd::prelude::*;

use crate::graph::{Graph, GraphModel};
use crate::path::UNREACHABLE;

verus! {

/// How many nodes of `ks`, other than `v`, are reachable from `v`.
pub open spec fn reach_count(g: GraphModel, v: usize, ks: Seq<usize>) -> nat
    decreases ks.len(),
{
    if ks.len() == 0 {
        0
    } else {
        reach_count(g, v, ks.drop_last()) + if ks.last() != v && g.reachable(v, ks.last()) {
            1nat
        } else {
            0nat
        }
    }
}

/// The sum of the distances from `v` to the nodes of `ks` it reaches (`v` itself left out).
pub open spec fn reach_total(g: GraphModel, v: usize, ks: Seq<usize>) -> nat
    decreases ks.len(),
{
    if ks.len() == 0 {
        0
    } else {
        reach_total(g, v, ks.drop_last()) + if ks.last() != v && g.reachable(v, ks.last()) {
            g.distance(v, ks.last())
        } else {
            0nat
        }
    }
}

/// The closeness data of one node: how many other keys it reaches and the
/// sum of the distances to them. Its score is `reached / total_distance`,
/// or 0 when it reaches none.
#[derive(Clone, Copy, Debug, PartialEq, Eq)]
pub struct Closeness {
    pub node: usize,
    pub reached: usize,
    pub total_distance: u128,
}

/// Outward closeness of every key, in key order.
pub fn closeness_centrality(graph: &Graph) -> (r: Vec<Closeness>)
    requires
        graph.wf(),
    ensures
        r@.len() == graph@.keys().len(),
        forall|i: int|
            0 <= i < r@.len() ==> {
                let c = #[trigger] r@[i];
                &&& c.node == graph@.keys()[i]
                &&& c.reached == reach_count(graph@, c.node, graph@.keys())
                &&& c.total_distance == reach_total(graph@, c.node, graph@.keys())
            },
{
    let ghost g = graph@;
    let keys = graph.keys();
    let n = graph.num_ids();
    let mut r: Vec<Closeness> = Vec::new();
    let mut i: usize = 0;
    while i < keys.len()
        invariant
            g == graph@,
            g.wf(),
            n == g.n(),
            keys@ == g.keys(),
            i <= keys@.len(),
            r@.len() == i,
            forall|a: int|
                0 <= a < i ==> {
                    let c = #[trigger] r@[a];
                    &&& c.node == keys@[a]
                    &&& c.reached == reach_count(g, c.node, keys@)
                    &&& c.total_distance == reach_total(g, c.node, keys@)
                },
        decreases keys@.len() - i,
    {
        let v = keys[i];
        let mut reached: usize = 0;
        let mut total: u128 = 0;
        let mut j: usize = 0;
        while j < keys.len()
            invariant
                g == graph@,
                g.wf(),
                n == g.n(),
                j <= keys@.len(),
                reached == reach_count(g, v, keys@.subrange(0, j as int)),
                total == reach_total(g, v, keys@.subrange(0, j as int)),
                reached <= j,
                total <= reached * n,
            decreases keys@.len() - j,
        {
            let u = keys[j];
            let ghost pre = keys@.subrange(0, j as int);
            let ghost post = keys@.subrange(0, j + 1);
            assert(post.drop_last() =~= pre);
            if u != v {
                let d = graph.bfs_distance(v, u);
                if d != UNREACHABLE {
                    proof {
                        assert(reached * n <= usize::MAX * usize::MAX) by (nonlinear_arith)
                            requires
                                reached <= usize::MAX,
                                n <= usize::MAX,
                        ;
                        assert(total + d <= (reached + 1) * n) by (nonlinear_arith)
                            requires
                                total <= reached * n,
                                d <= n,
                        ;
                    }
                    reached = reached + 1;
                    total = total + d as u128;
                }
            }
            j += 1;
        }
        assert(keys@.subrange(0, keys@.len() as int) =~= keys@);
        r.push(Closeness { node: v, reached, total_distance: total });
        i += 1;
    }
    r
}

/// Outside its own node, nothing is reachable from a node with no out-edges.
proof fn lemma_reach_from_sink(g: GraphModel, v: usize, t: usize, d: nat)
    requires
        g.wf(),
        g.degree(v) == 0,
        g.reach_within(v, t, d),
    ensures
        t == v,
    decreases d,
{
    if t != v {
        let u = choose|u: usize| #![trigger g.edge(u, t)] g.reach_within(v, u, (d - 1) as nat) && g.edge(u, t);
        lemma_reach_from_sink(g, v, u, (d - 1) as nat);
    }
}

/// A node without out-edges reaches no other node, so its closeness score is 0.
pub proof fn lemma_sink_closeness(g: GraphModel, v: usize, ks: Seq<usize>)
    requires
        g.wf(),
        g.degree(v) == 0,
    ensures
        reach_count(g, v, ks) == 0,
        reach_total(g, v, ks) == 0,
    decreases ks.len(),
{
    if ks.len() > 0 {
        lemma_sink_closeness(g, v, ks.drop_last());
        let t = ks.last();
        if t != v && g.reachable(v, t) {
            let d = choose|d: nat| g.reach_within(v, t, d);
            lemma_reach_from_sink(g, v, t, d);
        }
    }
}

} // verus!
