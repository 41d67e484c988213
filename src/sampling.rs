use vstd::prelude::*;

use rand::rngs::StdRng;
use rand::seq::SliceRandom;
use rand::Rng;

use crate::graph::{Graph, GraphModel};
use crate::agreement::{key_distance, lemma_matrix_agrees_with_distance};
use crate::path::{lemma_distance_exists, UNREACHABLE};

verus! {

/// rand's seedable generator `StdRng`, carried through as an opaque value.
#[verifier::external_type_specification]
#[verifier::external_body]
pub struct ExStdRng(StdRng);

/// Relies on rand's `SliceRandom::choose`: `None` exactly for an empty
/// slice, otherwise one of its elements.
#[verifier::external_body]
fn choose_node(nodes: &Vec<usize>, rng: &mut StdRng) -> (r: Option<usize>)
    ensures
        r is None <==> nodes@.len() == 0,
        r matches Some(x) ==> nodes@.contains(x),
{
    nodes.choose(rng).copied()
}

/// Relies on rand's `Rng::gen_range` over `low..high`: a value in that
/// range; it panics on an empty range, which the requirement rules out.
#[verifier::external_body]
fn random_below(rng: &mut StdRng, low: usize, high: usize) -> (r: usize)
    requires
        low < high,
    ensures
        low <= r < high,
{
    rng.gen_range(low..high)
}

/// A random graph on the ids `0..num_nodes`: every id is a key with one to
/// five out-edges, each to an id drawn uniformly (self-loops and repeats
/// allowed).
pub fn generate_random_graph(num_nodes: usize, rng: &mut StdRng) -> (g: Graph)
    ensures
        g.wf(),
        g@.n() == num_nodes,
        forall|u: int| 0 <= u < num_nodes ==> g@.is_key[u] && 1 <= #[trigger] g@.succ[u].len() <= 5,
{
    let mut lists: Vec<Vec<usize>> = Vec::new();
    let mut i: usize = 0;
    while i < num_nodes
        invariant
            i <= num_nodes,
            lists@.len() == i,
            forall|u: int| 0 <= u < i ==> 1 <= #[trigger] lists@[u]@.len() <= 5,
            forall|u: int, j: int| 0 <= u < i && 0 <= j < lists@[u]@.len() ==> #[trigger] lists@[u]@[j] < num_nodes,
        decreases num_nodes - i,
    {
        let count = random_below(rng, 1, 6);
        let mut row: Vec<usize> = Vec::new();
        while row.len() < count
            invariant
                row@.len() <= count <= 5,
                0 < num_nodes,
                forall|j: int| 0 <= j < row@.len() ==> #[trigger] row@[j] < num_nodes,
            decreases count - row@.len(),
        {
            row.push(random_below(rng, 0, num_nodes));
        }
        lists.push(row);
        i += 1;
    }
    Graph::from_lists(lists)
}

/// Running totals of the sampling estimator: the sum of the finite
/// distances met and how many pairs gave one. The estimate is
/// `total / counted`, or 0 when `counted` is 0.
#[derive(Clone, Copy, Debug, PartialEq, Eq)]
pub struct DistanceSample {
    pub total: u128,
    pub counted: usize,
}

/// No key reaches another key.
pub open spec fn fully_disconnected(g: GraphModel) -> bool {
    forall|a: usize, b: usize| g.key(a) && g.key(b) && a != b ==> !#[trigger] g.reachable(a, b)
}

/// What drawing the pair `(a, b)` adds to the totals: nothing for equal
/// ends or an unreachable target, the hop distance otherwise.
pub open spec fn recorded(g: GraphModel, s: DistanceSample, a: usize, b: usize) -> DistanceSample {
    if a != b && g.reachable(a, b) {
        DistanceSample { total: (s.total + g.distance(a, b)) as u128, counted: (s.counted + 1) as usize }
    } else {
        s
    }
}

/// Adds the drawn pair `(a, b)` to the running totals.
pub fn record_pair(graph: &Graph, s: DistanceSample, a: usize, b: usize) -> (r: DistanceSample)
    requires
        graph.wf(),
        s.counted < usize::MAX,
        s.total + graph@.n() <= u128::MAX,
    ensures
        r == recorded(graph@, s, a, b),
        r.counted == s.counted || (r.counted == s.counted + 1 && s.total + 1 <= r.total <= s.total + graph@.n()),
{
    if a == b {
        return s;
    }
    let d = graph.bfs_distance(a, b);
    if d == UNREACHABLE {
        s
    } else {
        proof {
            let g = graph@;
            let e = choose|e: nat| g.reach_within(a, b, e);
            lemma_distance_exists(g, a, b, e);
            if d == 0 {
                assert(g.reach_within(a, b, 0));
            }
        }
        DistanceSample { total: s.total + d as u128, counted: s.counted + 1 }
    }
}

/// The totals after recording the pairs of `pairs` in order, from zero.
pub open spec fn tally(g: GraphModel, pairs: Seq<(usize, usize)>) -> DistanceSample
    decreases pairs.len(),
{
    if pairs.len() == 0 {
        DistanceSample { total: 0, counted: 0 }
    } else {
        recorded(g, tally(g, pairs.drop_last()), pairs.last().0, pairs.last().1)
    }
}

/// Both ends of every pair are keys.
pub open spec fn key_pairs(g: GraphModel, pairs: Seq<(usize, usize)>) -> bool {
    forall|k: int| #![trigger pairs[k]] 0 <= k < pairs.len() ==> g.key(pairs[k].0) && g.key(pairs[k].1)
}

/// `r` is what `count` drawn pairs of keys add up to.
pub open spec fn tally_of_draws(g: GraphModel, count: nat, pairs: Seq<(usize, usize)>, r: DistanceSample) -> bool {
    pairs.len() == count && key_pairs(g, pairs) && r == tally(g, pairs)
}

proof fn lemma_tally_disconnected(g: GraphModel, pairs: Seq<(usize, usize)>)
    requires
        key_pairs(g, pairs),
        fully_disconnected(g),
    ensures
        tally(g, pairs).counted == 0,
        tally(g, pairs).total == 0,
    decreases pairs.len(),
{
    if pairs.len() > 0 {
        let q = pairs.drop_last();
        assert forall|k: int| #![trigger q[k]] 0 <= k < q.len() implies g.key(q[k].0) && g.key(q[k].1) by {
            assert(q[k] == pairs[k]);
        }
        lemma_tally_disconnected(g, q);
        let last = pairs[pairs.len() - 1];
        assert(g.key(last.0) && g.key(last.1));
        if last.0 != last.1 {
            assert(!g.reachable(last.0, last.1));
        }
    }
}

/// Records the drawn pairs in order: the running totals of the sampling
/// estimator over exactly these pairs.
pub fn tally_pairs(graph: &Graph, pairs: &Vec<(usize, usize)>) -> (r: DistanceSample)
    requires
        graph.wf(),
    ensures
        r == tally(graph@, pairs@),
        r.counted <= pairs@.len(),
        r.counted <= r.total,
        r.total <= r.counted * graph@.n(),
{
    let ghost g = graph@;
    let n = graph.num_ids();
    let mut s = DistanceSample { total: 0, counted: 0 };
    let mut i: usize = 0;
    while i < pairs.len()
        invariant
            g == graph@,
            g.wf(),
            n == g.n(),
            i <= pairs@.len(),
            s == tally(g, pairs@.subrange(0, i as int)),
            s.counted <= i,
            s.counted <= s.total,
            s.total <= s.counted * n,
        decreases pairs@.len() - i,
    {
        let (a, b) = pairs[i];
        proof {
            assert(s.counted * n <= usize::MAX * usize::MAX) by (nonlinear_arith)
                requires
                    s.counted <= usize::MAX,
                    n <= usize::MAX,
            ;
            assert(pairs@.subrange(0, i + 1).drop_last() =~= pairs@.subrange(0, i as int));
        }
        let ghost before = s;
        s = record_pair(graph, s, a, b);
        proof {
            if s.counted != before.counted {
                assert(s.total <= s.counted * n) by (nonlinear_arith)
                    requires
                        s.total <= before.total + n,
                        before.total <= before.counted * n,
                        s.counted == before.counted + 1,
                ;
            }
        }
        i += 1;
    }
    assert(pairs@.subrange(0, pairs@.len() as int) =~= pairs@);
    s
}

/// Estimates the average distance between keys: draws `sample_count`
/// pairs of keys uniformly with replacement (equal ends allowed), and
/// records them in order with `tally_pairs`; pairs with equal ends or an
/// unreachable target add nothing.
pub fn average_distance(graph: &Graph, rng: &mut StdRng, sample_count: usize) -> (r: DistanceSample)
    requires
        graph.wf(),
    ensures
        graph@.keys().len() == 0 ==> r == (DistanceSample { total: 0, counted: 0 }),
        graph@.keys().len() > 0 ==> exists|pairs: Seq<(usize, usize)>| #[trigger] tally_of_draws(graph@, sample_count as nat, pairs, r),
        r.counted <= sample_count,
        r.counted <= r.total,
        r.total <= r.counted * graph@.n(),
        fully_disconnected(graph@) ==> r.counted == 0,
{
    let ghost g = graph@;
    let keys = graph.keys();
    proof {
        crate::graph::lemma_keys_below(g, g.is_key.len());
    }
    if keys.len() == 0 {
        return DistanceSample { total: 0, counted: 0 };
    }
    let mut pairs: Vec<(usize, usize)> = Vec::new();
    let mut i: usize = 0;
    while i < sample_count
        invariant
            g == graph@,
            keys@ == g.keys(),
            keys@.len() > 0,
            forall|a: int| 0 <= a < keys@.len() ==> g.key(#[trigger] keys@[a]),
            i <= sample_count,
            pairs@.len() == i,
            key_pairs(g, pairs@),
        decreases sample_count - i,
    {
        let a = choose_node(&keys, rng);
        let b = choose_node(&keys, rng);
        match (a, b) {
            (Some(a), Some(b)) => {
                proof {
                    let x = choose|x: int| 0 <= x < keys@.len() && keys@[x] == a;
                    let y = choose|y: int| 0 <= y < keys@.len() && keys@[y] == b;
                    assert(g.key(keys@[x]) && g.key(keys@[y]));
                    assert(g.key(a) && g.key(b));
                }
                let ghost p0 = pairs@;
                pairs.push((a, b));
                assert forall|k: int| #![trigger pairs@[k]] 0 <= k < pairs@.len() implies g.key(pairs@[k].0) && g.key(pairs@[k].1) by {
                    if k < p0.len() {
                        assert(pairs@[k] == p0[k]);
                    } else {
                        assert(pairs@[k] == (a, b));
                    }
                }
            },
            _ => {
                // the key list is not empty, so both draws give a key
                assert(false);
            },
        }
        i += 1;
    }
    let r = tally_pairs(graph, &pairs);
    proof {
        assert(tally_of_draws(g, sample_count as nat, pairs@, r));
        if fully_disconnected(g) {
            lemma_tally_disconnected(g, pairs@);
        }
    }
    r
}

/// A bound on the finite distances between keys (such as the result of
/// `max_distance`) bounds every distance that the estimator adds up: the
/// total lies between the count and the count times the bound.
pub proof fn lemma_tally_bounded(g: GraphModel, pairs: Seq<(usize, usize)>, bound: nat)
    requires
        g.wf(),
        key_pairs(g, pairs),
        pairs.len() <= usize::MAX,
        forall|i: int, j: int|
            0 <= i < g.keys().len() && 0 <= j < g.keys().len() && #[trigger] key_distance(g, i, j) != UNREACHABLE
                ==> key_distance(g, i, j) <= bound,
    ensures
        tally(g, pairs).counted <= tally(g, pairs).total <= tally(g, pairs).counted * bound,
        tally(g, pairs).counted <= pairs.len(),
        tally(g, pairs).total <= tally(g, pairs).counted * g.keys().len(),
    decreases pairs.len(),
{
    if pairs.len() > 0 {
        let q = pairs.drop_last();
        assert forall|k: int| #![trigger q[k]] 0 <= k < q.len() implies g.key(q[k].0) && g.key(q[k].1) by {
            assert(q[k] == pairs[k]);
        }
        lemma_tally_bounded(g, q, bound);
        let (a, b) = pairs[pairs.len() - 1];
        let t = tally(g, q);
        if a != b && g.reachable(a, b) {
            crate::graph::lemma_keys_below(g, g.is_key.len());
            let ks = g.keys();
            assert(ks.contains(a) && ks.contains(b));
            let i = choose|i: int| 0 <= i < ks.len() && ks[i] == a;
            let j = choose|j: int| 0 <= j < ks.len() && ks[j] == b;
            lemma_matrix_agrees_with_distance(g, i, j);
            assert(g.distance(a, b) < ks.len());
            assert(key_distance(g, i, j) == g.distance(a, b));
            let e = choose|e: nat| g.reach_within(a, b, e);
            lemma_distance_exists(g, a, b, e);
            if g.distance(a, b) == 0 {
                assert(g.reach_within(a, b, 0));
            }
            let d = g.distance(a, b);
            let m = ks.len();
            assert(m <= usize::MAX);
            assert(t.total + d <= (t.counted + 1) * bound) by (nonlinear_arith)
                requires
                    t.total <= t.counted * bound,
                    d <= bound,
            ;
            assert(t.total + d <= (t.counted + 1) * m) by (nonlinear_arith)
                requires
                    t.total <= t.counted * m,
                    d < m,
            ;
            assert((t.counted + 1) * m <= usize::MAX * usize::MAX) by (nonlinear_arith)
                requires
                    t.counted + 1 <= usize::MAX,
                    m <= usize::MAX,
            ;
            assert(tally(g, pairs).total == t.total + d);
        }
    }
}

} // verus!
