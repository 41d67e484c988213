use vstd::prelude::*;

use crate::graph::{lemma_keys_below, GraphModel};
use crate::matrix::{matrix_entry, relaxed};
use crate::path::{lemma_distance_is_shortest_path, lemma_path_reaches, UNREACHABLE};

verus! {

/// `p` is an edge walk from `x` to `y` whose inner nodes all lie among the
/// first `k` nodes of `ks`.
pub open spec fn walk_via(g: GraphModel, ks: Seq<usize>, k: int, p: Seq<usize>, x: usize, y: usize) -> bool {
    &&& g.is_path(p, x, y)
    &&& forall|a: int| 0 < a < p.len() - 1 ==> ks.subrange(0, k).contains(#[trigger] p[a])
}

/// Entry `(i, j)` after relaxing through the first `k` keys is the fewest
/// hops of a walk through those keys, or unreachable when there is none.
pub open spec fn relaxation_exact(g: GraphModel, ks: Seq<usize>, k: nat, i: int, j: int) -> bool {
    let v = relaxed(g, ks, k, i, j);
    &&& v != UNREACHABLE ==> exists|p: Seq<usize>| #[trigger] walk_via(g, ks, k as int, p, ks[i], ks[j]) && p.len() == v + 1
    &&& v != UNREACHABLE ==> forall|p: Seq<usize>| #[trigger] walk_via(g, ks, k as int, p, ks[i], ks[j]) ==> p.len() >= v + 1
    &&& v == UNREACHABLE ==> forall|p: Seq<usize>| !#[trigger] walk_via(g, ks, k as int, p, ks[i], ks[j])
}

/// The keys ascend strictly.
pub open spec fn distinct_keys(ks: Seq<usize>) -> bool {
    forall|a: int, b: int| 0 <= a < b < ks.len() ==> ks[a] < ks[b]
}

proof fn lemma_pigeonhole(p: Seq<usize>, ks: Seq<usize>)
    requires
        p.no_duplicates(),
        forall|a: int| 0 <= a < p.len() ==> ks.contains(#[trigger] p[a]),
    ensures
        p.len() <= ks.len(),
{
    broadcast use vstd::seq_lib::seq_to_set_is_finite;
    broadcast use vstd::set::group_set_axioms;

    p.unique_seq_to_set();
    ks.lemma_cardinality_of_set();
    assert(p.to_set().subset_of(ks.to_set())) by {
        assert forall|v: usize| p.to_set().contains(v) implies ks.to_set().contains(v) by {
            let a = choose|a: int| 0 <= a < p.len() && p[a] == v;
            assert(ks.contains(p[a]));
        }
    }
    vstd::set_lib::lemma_len_subset(p.to_set(), ks.to_set());
}

/// A walk through the first `k` keys can be shortened to one without a
/// repeated node, so to at most as many nodes as there are keys.
proof fn lemma_short_walk(g: GraphModel, ks: Seq<usize>, k: int, p: Seq<usize>, x: usize, y: usize) -> (q: Seq<usize>)
    requires
        0 <= k <= ks.len(),
        walk_via(g, ks, k, p, x, y),
        ks.contains(x),
        ks.contains(y),
    ensures
        walk_via(g, ks, k, q, x, y),
        q.len() <= p.len(),
        q.len() <= ks.len(),
    decreases p.len(),
{
    if p.no_duplicates() {
        assert forall|a: int| 0 <= a < p.len() implies ks.contains(#[trigger] p[a]) by {
            if 0 < a < p.len() - 1 {
                assert(ks.subrange(0, k).contains(p[a]));
                let b = choose|b: int| 0 <= b < k && #[trigger] ks.subrange(0, k)[b] == p[a];
                assert(ks[b] == p[a]);
            } else if a == 0 {
            } else {
                assert(p[a] == p.last());
            }
        }
        lemma_pigeonhole(p, ks);
        p
    } else {
        let (a, b) = choose|a: int, b: int| 0 <= a < p.len() && 0 <= b < p.len() && a != b && p[a] == p[b];
        let (a, b) = if a < b { (a, b) } else { (b, a) };
        let r = p.subrange(0, a) + p.subrange(b, p.len() as int);
        assert(r.len() == p.len() - (b - a));
        assert forall|c: int| 0 <= c < r.len() implies #[trigger] r[c] == if c < a { p[c] } else { p[c + b - a] } by {}
        assert(r[0] == x) by {
            if a == 0 {
                assert(r[0] == p[b]);
            }
        }
        assert(r.last() == y) by {
            assert(r[r.len() - 1] == p[p.len() - 1]);
        }
        assert forall|c: int| 0 <= c < r.len() - 1 implies #[trigger] g.edge(r[c], r[c + 1]) by {
            if c + 1 < a {
                assert(g.edge(p[c], p[c + 1]));
            } else if c + 1 == a {
                assert(r[c + 1] == p[b]);
                assert(g.edge(p[c], p[c + 1]));
            } else {
                assert(g.edge(p[c + b - a], p[c + b - a + 1]));
            }
        }
        assert forall|c: int| 0 < c < r.len() - 1 implies ks.subrange(0, k).contains(#[trigger] r[c]) by {
            if c < a {
                assert(ks.subrange(0, k).contains(p[c]));
            } else {
                assert(ks.subrange(0, k).contains(p[c + b - a]));
            }
        }
        lemma_short_walk(g, ks, k, r, x, y)
    }
}

/// Walks through fewer keys are walks through more keys.
proof fn lemma_walk_widen(g: GraphModel, ks: Seq<usize>, k: int, p: Seq<usize>, x: usize, y: usize)
    requires
        0 <= k < ks.len(),
        walk_via(g, ks, k, p, x, y),
    ensures
        walk_via(g, ks, k + 1, p, x, y),
{
    assert forall|a: int| 0 < a < p.len() - 1 implies ks.subrange(0, k + 1).contains(#[trigger] p[a]) by {
        assert(ks.subrange(0, k).contains(p[a]));
        let b = choose|b: int| 0 <= b < k && #[trigger] ks.subrange(0, k)[b] == p[a];
        assert(ks.subrange(0, k + 1)[b] == p[a]);
    }
}

/// Two walks through the first `k` keys, joined at key `k`, make a walk
/// through the first `k + 1` keys.
proof fn lemma_walk_join(g: GraphModel, ks: Seq<usize>, k: int, p: Seq<usize>, q: Seq<usize>, x: usize, y: usize)
    requires
        0 <= k < ks.len(),
        walk_via(g, ks, k, p, x, ks[k]),
        walk_via(g, ks, k, q, ks[k], y),
    ensures
        walk_via(g, ks, k + 1, p + q.drop_first(), x, y),
        (p + q.drop_first()).len() == p.len() + q.len() - 1,
{
    let z = ks[k];
    let r = p + q.drop_first();
    let n1 = p.len();
    assert forall|c: int| 0 <= c < r.len() implies #[trigger] r[c] == if c < n1 { p[c] } else { q[c - n1 + 1] } by {}
    assert(r[0] == x);
    assert(r.last() == y) by {
        if q.len() == 1 {
            assert(r[r.len() - 1] == p[n1 - 1]);
            assert(q[0] == q.last());
        } else {
            assert(r[r.len() - 1] == q[q.len() - 1]);
        }
    }
    assert forall|c: int| 0 <= c < r.len() - 1 implies #[trigger] g.edge(r[c], r[c + 1]) by {
        if c + 1 < n1 {
            assert(g.edge(p[c], p[c + 1]));
        } else {
            let e = c - n1 + 1;
            assert(g.edge(q[e], q[e + 1]));
            if c == n1 - 1 {
                assert(p[n1 - 1] == z);
                assert(q[0] == z);
            }
        }
    }
    assert forall|c: int| 0 < c < r.len() - 1 implies ks.subrange(0, k + 1).contains(#[trigger] r[c]) by {
        if c < n1 - 1 {
            assert(ks.subrange(0, k).contains(p[c]));
            let b = choose|b: int| 0 <= b < k && #[trigger] ks.subrange(0, k)[b] == p[c];
            assert(ks.subrange(0, k + 1)[b] == p[c]);
        } else if c == n1 - 1 {
            assert(r[c] == z);
            assert(ks.subrange(0, k + 1)[k] == z);
        } else {
            let e = c - n1 + 1;
            assert(ks.subrange(0, k).contains(q[e]));
            let b = choose|b: int| 0 <= b < k && #[trigger] ks.subrange(0, k)[b] == q[e];
            assert(ks.subrange(0, k + 1)[b] == q[e]);
        }
    }
}

proof fn first_occurrence(p: Seq<usize>, z: usize, lo: int, hi: int) -> (f: int)
    requires
        0 <= lo <= hi <= p.len(),
        exists|a: int| lo <= a < hi && p[a] == z,
    ensures
        lo <= f < hi,
        p[f] == z,
        forall|b: int| lo <= b < f ==> p[b] != z,
    decreases hi - lo,
{
    if p[lo] == z {
        lo
    } else {
        let a = choose|a: int| lo <= a < hi && p[a] == z;
        first_occurrence(p, z, lo + 1, hi)
    }
}

proof fn last_occurrence(p: Seq<usize>, z: usize, lo: int, hi: int) -> (l: int)
    requires
        0 <= lo <= hi <= p.len(),
        exists|a: int| lo <= a < hi && p[a] == z,
    ensures
        lo <= l < hi,
        p[l] == z,
        forall|b: int| l < b < hi ==> p[b] != z,
    decreases hi - lo,
{
    if p[hi - 1] == z {
        hi - 1
    } else {
        let a = choose|a: int| lo <= a < hi && p[a] == z;
        last_occurrence(p, z, lo, hi - 1)
    }
}

/// A walk through the first `k + 1` keys either avoids key `k` inside, or
/// splits into a walk to key `k` and a walk from it, both through the first
/// `k` keys, with no more hops in all.
proof fn lemma_walk_split(g: GraphModel, ks: Seq<usize>, k: int, p: Seq<usize>, x: usize, y: usize)
    requires
        0 <= k < ks.len(),
        walk_via(g, ks, k + 1, p, x, y),
    ensures
        walk_via(g, ks, k, p, x, y) || exists|p1: Seq<usize>, p2: Seq<usize>|
            #[trigger] walk_via(g, ks, k, p1, x, ks[k]) && #[trigger] walk_via(g, ks, k, p2, ks[k], y) && p1.len()
                + p2.len() <= p.len() + 1,
{
    let z = ks[k];
    if exists|a: int| 0 < a < p.len() - 1 && p[a] == z {
        let w = choose|a: int| 0 < a < p.len() - 1 && p[a] == z;
        let f = first_occurrence(p, z, 1, p.len() - 1);
        let l = last_occurrence(p, z, 1, p.len() - 1);
        assert(f <= l) by {
            if l < f {
                assert(p[l] != z);
            }
        }
        let p1 = p.subrange(0, f + 1);
        let p2 = p.subrange(l, p.len() as int);
        assert(g.is_path(p1, x, z)) by {
            assert(p1.last() == p[f]);
            assert forall|c: int| 0 <= c < p1.len() - 1 implies #[trigger] g.edge(p1[c], p1[c + 1]) by {
                assert(g.edge(p[c], p[c + 1]));
            }
        }
        assert forall|a: int| 0 < a < p1.len() - 1 implies ks.subrange(0, k).contains(#[trigger] p1[a]) by {
            assert(p1[a] == p[a]);
            assert(ks.subrange(0, k + 1).contains(p[a]));
            let b = choose|b: int| 0 <= b < k + 1 && #[trigger] ks.subrange(0, k + 1)[b] == p[a];
            assert(p[a] != z);
            assert(ks.subrange(0, k)[b] == p[a]);
        }
        assert(g.is_path(p2, z, y)) by {
            assert(p2[0] == p[l]);
            assert(p2.last() == p.last());
            assert forall|c: int| 0 <= c < p2.len() - 1 implies #[trigger] g.edge(p2[c], p2[c + 1]) by {
                assert(g.edge(p[c + l], p[c + l + 1]));
            }
        }
        assert forall|a: int| 0 < a < p2.len() - 1 implies ks.subrange(0, k).contains(#[trigger] p2[a]) by {
            assert(p2[a] == p[a + l]);
            assert(ks.subrange(0, k + 1).contains(p[a + l]));
            let b = choose|b: int| 0 <= b < k + 1 && #[trigger] ks.subrange(0, k + 1)[b] == p[a + l];
            assert(p[a + l] != z);
            assert(ks.subrange(0, k)[b] == p[a + l]);
        }
        assert(walk_via(g, ks, k, p1, x, ks[k]) && walk_via(g, ks, k, p2, ks[k], y));
    } else {
        assert forall|a: int| 0 < a < p.len() - 1 implies ks.subrange(0, k).contains(#[trigger] p[a]) by {
            assert(ks.subrange(0, k + 1).contains(p[a]));
            let b = choose|b: int| 0 <= b < k + 1 && #[trigger] ks.subrange(0, k + 1)[b] == p[a];
            assert(b != k);
            assert(ks.subrange(0, k)[b] == p[a]);
        }
    }
}

proof fn lemma_exact_base(g: GraphModel, ks: Seq<usize>, i: int, j: int)
    requires
        distinct_keys(ks),
        0 <= i < ks.len(),
        0 <= j < ks.len(),
    ensures
        relaxation_exact(g, ks, 0, i, j),
{
    let x = ks[i];
    let y = ks[j];
    assert forall|p: Seq<usize>| #[trigger] walk_via(g, ks, 0, p, x, y) implies p.len() <= 2 by {
        if p.len() > 2 {
            assert(ks.subrange(0, 0).contains(p[1]));
        }
    }
    if i == j {
        let w = seq![x];
        assert(walk_via(g, ks, 0, w, x, y));
    } else {
        assert(x != y) by {
            if i < j {
                assert(ks[i] < ks[j]);
            } else {
                assert(ks[j] < ks[i]);
            }
        }
        if g.edge(x, y) {
            let w = seq![x, y];
            assert(g.edge(w[0], w[1]));
            assert(walk_via(g, ks, 0, w, x, y));
        } else {
            assert forall|p: Seq<usize>| !#[trigger] walk_via(g, ks, 0, p, x, y) by {
                if walk_via(g, ks, 0, p, x, y) {
                    if p.len() == 2 {
                        let e: int = 0;
                        assert(g.edge(p[e], p[e + 1]));
                        assert(p[1] == p.last());
                    }
                }
            }
        }
    }
}

proof fn lemma_exact_step(g: GraphModel, ks: Seq<usize>, k: nat, i: int, j: int)
    requires
        k < ks.len(),
        ks.len() <= usize::MAX,
        0 <= i < ks.len(),
        0 <= j < ks.len(),
        forall|a: int, b: int| 0 <= a < ks.len() && 0 <= b < ks.len() ==> #[trigger] relaxation_exact(g, ks, k, a, b),
    ensures
        relaxation_exact(g, ks, k + 1, i, j),
{
    let x = ks[i];
    let y = ks[j];
    let z = ks[k as int];
    let ki = k as int;
    let a = relaxed(g, ks, k, i, j);
    let b = relaxed(g, ks, k, i, ki);
    let c = relaxed(g, ks, k, ki, j);
    assert(relaxation_exact(g, ks, k, i, j));
    assert(relaxation_exact(g, ks, k, i, ki));
    assert(relaxation_exact(g, ks, k, ki, j));
    let v = relaxed(g, ks, k + 1, i, j);
    assert(v == if b != UNREACHABLE && c != UNREACHABLE && b + c < a { (b + c) as usize } else { a });
    // Every walk through the first k + 1 keys has at least min(a, b + c) hops.
    assert forall|p: Seq<usize>| #[trigger] walk_via(g, ks, ki + 1, p, x, y) implies
        (a != UNREACHABLE && p.len() >= a + 1) || (b != UNREACHABLE && c != UNREACHABLE && p.len() >= b + c + 1) by {
        lemma_walk_split(g, ks, ki, p, x, y);
        if !walk_via(g, ks, ki, p, x, y) {
            let (p1, p2) = choose|p1: Seq<usize>, p2: Seq<usize>|
                #[trigger] walk_via(g, ks, ki, p1, x, z) && #[trigger] walk_via(g, ks, ki, p2, z, y) && p1.len() + p2.len()
                    <= p.len() + 1;
            assert(walk_via(g, ks, ki, p1, x, z));
            assert(walk_via(g, ks, ki, p2, z, y));
        }
    }
    if b != UNREACHABLE && c != UNREACHABLE && b + c < a {
        let p1 = choose|p: Seq<usize>| #[trigger] walk_via(g, ks, ki, p, x, z) && p.len() == b + 1;
        let p2 = choose|p: Seq<usize>| #[trigger] walk_via(g, ks, ki, p, z, y) && p.len() == c + 1;
        lemma_walk_join(g, ks, ki, p1, p2, x, y);
        assert(walk_via(g, ks, ki + 1, p1 + p2.drop_first(), x, y));
    } else if a != UNREACHABLE {
        let p0 = choose|p: Seq<usize>| #[trigger] walk_via(g, ks, ki, p, x, y) && p.len() == a + 1;
        lemma_walk_widen(g, ks, ki, p0, x, y);
        assert(walk_via(g, ks, ki + 1, p0, x, y));
    } else {
        assert forall|p: Seq<usize>| !#[trigger] walk_via(g, ks, ki + 1, p, x, y) by {
            if walk_via(g, ks, ki + 1, p, x, y) {
                assert(ks.contains(x)) by {
                    assert(ks[i] == x);
                }
                assert(ks.contains(y)) by {
                    assert(ks[j] == y);
                }
                let q = lemma_short_walk(g, ks, ki + 1, p, x, y);
                assert(walk_via(g, ks, ki + 1, q, x, y));
            }
        }
    }
}

proof fn lemma_exact_all(g: GraphModel, ks: Seq<usize>, k: nat)
    requires
        distinct_keys(ks),
        ks.len() <= usize::MAX,
        k <= ks.len(),
    ensures
        forall|a: int, b: int| 0 <= a < ks.len() && 0 <= b < ks.len() ==> #[trigger] relaxation_exact(g, ks, k, a, b),
    decreases k,
{
    if k == 0 {
        assert forall|a: int, b: int| 0 <= a < ks.len() && 0 <= b < ks.len() implies #[trigger] relaxation_exact(g, ks, 0, a, b) by {
            lemma_exact_base(g, ks, a, b);
        }
    } else {
        lemma_exact_all(g, ks, (k - 1) as nat);
        assert forall|a: int, b: int| 0 <= a < ks.len() && 0 <= b < ks.len() implies #[trigger] relaxation_exact(g, ks, k, a, b) by {
            lemma_exact_step(g, ks, (k - 1) as nat, a, b);
        }
    }
}

/// The distance from the `i`-th key to the `j`-th, or `UNREACHABLE` when
/// no path leads from one to the other.
pub open spec fn key_distance(g: GraphModel, i: int, j: int) -> usize {
    if g.reachable(g.keys()[i], g.keys()[j]) {
        g.distance(g.keys()[i], g.keys()[j]) as usize
    } else {
        UNREACHABLE
    }
}

/// The all-pairs matrix agrees with breadth-first search: entry `(i, j)` is
/// the distance from the `i`-th key to the `j`-th, and unreachable exactly
/// when no path exists. A finite distance between keys is below the number
/// of keys.
pub proof fn lemma_matrix_agrees_with_distance(g: GraphModel, i: int, j: int)
    requires
        g.wf(),
        0 <= i < g.keys().len(),
        0 <= j < g.keys().len(),
    ensures
        g.reachable(g.keys()[i], g.keys()[j]) ==> matrix_entry(g, i, j) == g.distance(g.keys()[i], g.keys()[j]),
        !g.reachable(g.keys()[i], g.keys()[j]) ==> matrix_entry(g, i, j) == UNREACHABLE,
        g.reachable(g.keys()[i], g.keys()[j]) ==> g.distance(g.keys()[i], g.keys()[j]) < g.keys().len(),
        matrix_entry(g, i, j) == key_distance(g, i, j),
{
    let ks = g.keys();
    let m = ks.len();
    let x = ks[i];
    let y = ks[j];
    lemma_keys_below(g, g.is_key.len());
    lemma_exact_all(g, ks, m);
    assert(relaxation_exact(g, ks, m, i, j));
    let v = matrix_entry(g, i, j);
    // Every edge walk passes only through keys.
    assert forall|p: Seq<usize>| g.is_path(p, x, y) implies #[trigger] walk_via(g, ks, m as int, p, x, y) by {
        assert forall|a: int| 0 < a < p.len() - 1 implies ks.subrange(0, m as int).contains(#[trigger] p[a]) by {
            assert(g.edge(p[a], p[a + 1]));
            let u = p[a];
            assert(g.succ[u as int].len() > 0);
            assert(g.key(u));
            assert(ks.contains(u));
            assert(ks.subrange(0, m as int) =~= ks);
        }
    }
    if g.reachable(x, y) {
        lemma_distance_is_shortest_path(g, x, y);
        let d = g.distance(x, y);
        let p = choose|p: Seq<usize>| g.is_path(p, x, y) && p.len() == d + 1;
        assert(walk_via(g, ks, m as int, p, x, y));
        let w = choose|w: Seq<usize>| #[trigger] walk_via(g, ks, m as int, w, x, y) && w.len() == v + 1;
        assert(g.is_path(w, x, y));
        assert(ks.contains(x)) by {
            assert(ks[i] == x);
        }
        assert(ks.contains(y)) by {
            assert(ks[j] == y);
        }
        let q = lemma_short_walk(g, ks, m as int, w, x, y);
        assert(q.len() >= v + 1);
    } else if v != UNREACHABLE {
        let w = choose|w: Seq<usize>| #[trigger] walk_via(g, ks, m as int, w, x, y) && w.len() == v + 1;
        lemma_path_reaches(g, w, x, y);
    }
}

} // verus!
