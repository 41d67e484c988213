use vstd::prelude::*;

use std::collections::HashMap;

use crate::graph::{Graph, GraphModel};

verus! {

/// How many of the nodes in `ks` have out-degree `d`.
pub open spec fn count_degree(g: GraphModel, ks: Seq<usize>, d: nat) -> nat
    decreases ks.len(),
{
    if ks.len() == 0 {
        0
    } else {
        count_degree(g, ks.drop_last(), d) + if g.degree(ks.last()) == d {
            1nat
        } else {
            0nat
        }
    }
}

/// The sum of the counts of a histogram.
pub open spec fn total_count(h: Seq<(usize, usize)>) -> nat
    decreases h.len(),
{
    if h.len() == 0 {
        0
    } else {
        total_count(h.drop_last()) + h.last().1 as nat
    }
}

/// `h` is the out-degree histogram of the nodes in `ks`: one entry per
/// degree observed, with the number of nodes that have it.
pub open spec fn is_histogram_of(g: GraphModel, ks: Seq<usize>, h: Seq<(usize, usize)>) -> bool {
    &&& forall|a: int, b: int| 0 <= a < b < h.len() ==> h[a].0 != h[b].0
    &&& forall|a: int| 0 <= a < h.len() ==> #[trigger] h[a].1 == count_degree(g, ks, h[a].0 as nat) && h[a].1 > 0
    &&& forall|k: int| 0 <= k < ks.len() ==> exists|a: int| 0 <= a < h.len() && h[a].0 == g.degree(#[trigger] ks[k])
}

proof fn lemma_total_count_update(h: Seq<(usize, usize)>, p: int, e: (usize, usize))
    requires
        0 <= p < h.len(),
        e.1 == h[p].1 + 1,
    ensures
        total_count(h.update(p, e)) == total_count(h) + 1,
    decreases h.len(),
{
    if p < h.len() - 1 {
        assert(h.update(p, e).drop_last() =~= h.drop_last().update(p, e));
        lemma_total_count_update(h.drop_last(), p, e);
    } else {
        assert(h.update(p, e).drop_last() =~= h.drop_last());
    }
}

proof fn lemma_count_degree_zero(g: GraphModel, ks: Seq<usize>, d: nat)
    requires
        forall|k: int| 0 <= k < ks.len() ==> g.degree(#[trigger] ks[k]) != d,
    ensures
        count_degree(g, ks, d) == 0,
    decreases ks.len(),
{
    if ks.len() > 0 {
        assert forall|k: int| 0 <= k < ks.drop_last().len() implies g.degree(#[trigger] ks.drop_last()[k]) != d by {
            assert(ks.drop_last()[k] == ks[k]);
        }
        lemma_count_degree_zero(g, ks.drop_last(), d);
    }
}

/// The out-degree histogram of the graph's keys as a list: pairs of a degree
/// and the number of keys with that degree, one pair per degree observed,
/// in order of first appearance along the key enumeration.
pub fn degree_counts(graph: &Graph) -> (hist: Vec<(usize, usize)>)
    requires
        graph.wf(),
    ensures
        is_histogram_of(graph@, graph@.keys(), hist@),
        total_count(hist@) == graph@.keys().len(),
{
    let ghost g = graph@;
    let keys = graph.keys();
    let mut hist: Vec<(usize, usize)> = Vec::new();
    let mut i: usize = 0;
    while i < keys.len()
        invariant
            g == graph@,
            graph.wf(),
            keys@ == g.keys(),
            i <= keys@.len(),
            is_histogram_of(g, keys@.subrange(0, i as int), hist@),
            total_count(hist@) == i,
        decreases keys@.len() - i,
    {
        let u = keys[i];
        let deg = graph.out_degree(u);
        let ghost pre = keys@.subrange(0, i as int);
        let ghost post = keys@.subrange(0, i + 1);
        assert(post.drop_last() =~= pre);
        assert(post.last() == u);
        let ghost h0 = hist@;
        let mut p: usize = 0;
        while p < hist.len() && hist[p].0 != deg
            invariant
                p <= hist@.len(),
                forall|a: int| 0 <= a < p ==> hist@[a].0 != deg,
            decreases hist@.len() - p,
        {
            p += 1;
        }
        if p < hist.len() {
            let c = hist[p].1;
            proof {
                assert(c == count_degree(g, pre, deg as nat));
                assert(c <= i) by {
                    lemma_count_degree_le(g, pre, deg as nat);
                }
                lemma_total_count_update(hist@, p as int, (deg, (c + 1) as usize));
            }
            hist.set(p, (deg, c + 1));
            proof {
                assert forall|a: int| 0 <= a < hist@.len() implies #[trigger] hist@[a].1 == count_degree(g, post, hist@[a].0 as nat)
                    && hist@[a].1 > 0 by {
                    assert(h0[a].1 == count_degree(g, pre, h0[a].0 as nat));
                }
                assert forall|k: int| 0 <= k < post.len() implies exists|a: int| 0 <= a < hist@.len() && hist@[a].0 == g.degree(#[trigger] post[k]) by {
                    if k < i {
                        assert(post[k] == pre[k]);
                        let a = choose|a: int| 0 <= a < h0.len() && h0[a].0 == g.degree(pre[k]);
                        assert(hist@[a].0 == h0[a].0);
                    } else {
                        assert(hist@[p as int].0 == g.degree(post[k]));
                    }
                }
            }
        } else {
            proof {
                assert forall|k: int| 0 <= k < pre.len() implies g.degree(#[trigger] pre[k]) != deg as nat by {
                    let a = choose|a: int| 0 <= a < h0.len() && h0[a].0 == g.degree(pre[k]);
                }
                lemma_count_degree_zero(g, pre, deg as nat);
                assert(total_count(h0.push((deg, 1usize))) == total_count(h0) + 1) by {
                    assert(h0.push((deg, 1usize)).drop_last() =~= h0);
                }
            }
            hist.push((deg, 1));
            proof {
                assert forall|a: int| 0 <= a < hist@.len() implies #[trigger] hist@[a].1 == count_degree(g, post, hist@[a].0 as nat)
                    && hist@[a].1 > 0 by {
                    if a < h0.len() {
                        assert(hist@[a] == h0[a]);
                        assert(h0[a].1 == count_degree(g, pre, h0[a].0 as nat));
                    }
                }
                assert forall|k: int| 0 <= k < post.len() implies exists|a: int| 0 <= a < hist@.len() && hist@[a].0 == g.degree(#[trigger] post[k]) by {
                    if k < i {
                        assert(post[k] == pre[k]);
                        let a = choose|a: int| 0 <= a < h0.len() && h0[a].0 == g.degree(pre[k]);
                        assert(hist@[a].0 == h0[a].0);
                    } else {
                        assert(hist@[h0.len() as int].0 == g.degree(post[k]));
                    }
                }
            }
        }
        i += 1;
    }
    assert(keys@.subrange(0, keys@.len() as int) =~= keys@);
    hist
}

proof fn lemma_count_degree_le(g: GraphModel, ks: Seq<usize>, d: nat)
    ensures
        count_degree(g, ks, d) <= ks.len(),
    decreases ks.len(),
{
    if ks.len() > 0 {
        lemma_count_degree_le(g, ks.drop_last(), d);
    }
}

/// The map holding the pairs of `h`, each degree to its count.
pub open spec fn map_of(h: Seq<(usize, usize)>) -> Map<usize, usize>
    decreases h.len(),
{
    if h.len() == 0 {
        Map::empty()
    } else {
        map_of(h.drop_last()).insert(h.last().0, h.last().1)
    }
}

/// `m` holds the histogram `h` of the graph's keys, whose counts add up to
/// the number of keys.
pub open spec fn histogram_map(g: GraphModel, m: Map<usize, usize>, h: Seq<(usize, usize)>) -> bool {
    &&& is_histogram_of(g, g.keys(), h)
    &&& total_count(h) == g.keys().len()
    &&& m == map_of(h)
}

/// The out-degree histogram of the graph's keys: each observed degree maps
/// to the number of keys with that degree, and the counts add up to the
/// number of keys.
pub fn degree_distribution(graph: &Graph) -> (hist: HashMap<usize, usize>)
    requires
        graph.wf(),
    ensures
        exists|h: Seq<(usize, usize)>| #[trigger] histogram_map(graph@, hist@, h),
{
    broadcast use vstd::std_specs::hash::group_hash_axioms;

    let pairs = degree_counts(graph);
    let mut hist: HashMap<usize, usize> = HashMap::new();
    let mut i: usize = 0;
    while i < pairs.len()
        invariant
            i <= pairs@.len(),
            hist@ == map_of(pairs@.subrange(0, i as int)),
        decreases pairs@.len() - i,
    {
        let (d, c) = pairs[i];
        assert(pairs@.subrange(0, i + 1).drop_last() =~= pairs@.subrange(0, i as int));
        hist.insert(d, c);
        i += 1;
    }
    assert(pairs@.subrange(0, pairs@.len() as int) =~= pairs@);
    assert(histogram_map(graph@, hist@, pairs@));
    hist
}

} // verus!
