use vstd::prelude::*;

use crate::graph::{Graph, GraphModel};

verus! {

/// The distance reported for a target that cannot be reached.
pub const UNREACHABLE: usize = usize::MAX;

/// Number of `true` entries.
pub open spec fn count_true(s: Seq<bool>) -> nat
    decreases s.len(),
{
    if s.len() == 0 {
        0
    } else {
        count_true(s.drop_last()) + if s.last() {
            1nat
        } else {
            0nat
        }
    }
}

pub(crate) proof fn lemma_count_true_le(s: Seq<bool>)
    ensures
        count_true(s) <= s.len(),
    decreases s.len(),
{
    if s.len() > 0 {
        lemma_count_true_le(s.drop_last());
    }
}

pub(crate) proof fn lemma_count_true_set(s: Seq<bool>, i: int)
    requires
        0 <= i < s.len(),
        !s[i],
    ensures
        count_true(s.update(i, true)) == count_true(s) + 1,
    decreases s.len(),
{
    let t = s.update(i, true);
    if i == s.len() - 1 {
        assert(t.drop_last() =~= s.drop_last());
    } else {
        assert(t.drop_last() =~= s.drop_last().update(i, true));
        lemma_count_true_set(s.drop_last(), i);
    }
}

/// Reaching within `d` hops implies reaching within `d + 1`.
pub proof fn lemma_reach_step(g: GraphModel, s: usize, t: usize, d: nat)
    requires
        g.reach_within(s, t, d),
    ensures
        g.reach_within(s, t, d + 1),
    decreases d,
{
    if s != t {
        let u = choose|u: usize| #![trigger g.edge(u, t)] g.reach_within(s, u, (d - 1) as nat) && g.edge(u, t);
        lemma_reach_step(g, s, u, (d - 1) as nat);
    }
}

/// Reaching within `d` hops implies reaching within any larger bound.
pub proof fn lemma_reach_mono(g: GraphModel, s: usize, t: usize, d: nat, e: nat)
    requires
        g.reach_within(s, t, d),
        d <= e,
    ensures
        g.reach_within(s, t, e),
    decreases e - d,
{
    if d < e {
        lemma_reach_step(g, s, t, d);
        lemma_reach_mono(g, s, t, d + 1, e);
    }
}

/// A node other than the start is reached only along an edge, so it is a known id.
proof fn lemma_reach_known(g: GraphModel, s: usize, t: usize, d: nat)
    requires
        g.wf(),
        g.reach_within(s, t, d),
        s != t,
    ensures
        t < g.n(),
{
    let u = choose|u: usize| #![trigger g.edge(u, t)] g.reach_within(s, u, (d - 1) as nat) && g.edge(u, t);
    let i = choose|i: int| 0 <= i < g.succ[u as int].len() && g.succ[u as int][i] == t;
    assert(g.succ[u as int][i] < g.n());
}

/// The least hop count is unique, so it is what `distance` names.
pub proof fn lemma_distance_unique(g: GraphModel, s: usize, t: usize, d: nat)
    requires
        g.is_distance(s, t, d),
    ensures
        g.distance(s, t) == d,
{
    let x = g.distance(s, t);
    assert(g.is_distance(s, t, x));
    if x < d {
        assert(!g.reach_within(s, t, x));
    } else if d < x {
        assert(!g.reach_within(s, t, d));
    }
}

/// A reachable target has a least hop count.
pub proof fn lemma_distance_exists(g: GraphModel, s: usize, t: usize, d: nat)
    requires
        g.reach_within(s, t, d),
    ensures
        g.is_distance(s, t, g.distance(s, t)),
        g.distance(s, t) <= d,
    decreases d,
{
    if d > 0 && g.reach_within(s, t, (d - 1) as nat) {
        lemma_distance_exists(g, s, t, (d - 1) as nat);
    } else {
        assert forall|e: nat| e < d implies !#[trigger] g.reach_within(s, t, e) by {
            if g.reach_within(s, t, e) {
                lemma_reach_mono(g, s, t, e, (d - 1) as nat);
            }
        }
        assert(g.is_distance(s, t, d));
        lemma_distance_unique(g, s, t, d);
    }
}

/// If a bound `d + 1` reaches nothing new, no larger bound does.
proof fn lemma_reach_closed(g: GraphModel, s: usize, d: nat, t: usize, e: nat)
    requires
        forall|v: usize| #[trigger] g.reach_within(s, v, d + 1) ==> g.reach_within(s, v, d),
        g.reach_within(s, t, e),
    ensures
        g.reach_within(s, t, d),
    decreases e,
{
    if e <= d {
        lemma_reach_mono(g, s, t, e, d);
    } else if s != t {
        let u = choose|u: usize| #![trigger g.edge(u, t)] g.reach_within(s, u, (e - 1) as nat) && g.edge(u, t);
        lemma_reach_closed(g, s, d, u, (e - 1) as nat);
        assert(g.reach_within(s, t, d + 1));
    }
}

pub(crate) proof fn lemma_path_reaches(g: GraphModel, p: Seq<usize>, s: usize, t: usize)
    requires
        g.is_path(p, s, t),
    ensures
        g.reach_within(s, t, (p.len() - 1) as nat),
    decreases p.len(),
{
    if p.len() > 1 {
        let q = p.drop_last();
        let u = q.last();
        assert forall|i: int| 0 <= i < q.len() - 1 implies #[trigger] g.edge(q[i], q[i + 1]) by {
            assert(g.edge(p[i], p[i + 1]));
        }
        lemma_path_reaches(g, q, s, u);
        let k = p.len() - 2;
        assert(0 <= k < p.len() - 1);
        assert(g.edge(p[k], p[k + 1]));
        assert(g.edge(u, t));
    }
}

proof fn lemma_reach_has_path(g: GraphModel, s: usize, t: usize, d: nat) -> (p: Seq<usize>)
    requires
        g.reach_within(s, t, d),
    ensures
        g.is_path(p, s, t),
        p.len() <= d + 1,
    decreases d,
{
    if s == t {
        let p = seq![s];
        p
    } else {
        let u = choose|u: usize| #![trigger g.edge(u, t)] g.reach_within(s, u, (d - 1) as nat) && g.edge(u, t);
        let q = lemma_reach_has_path(g, s, u, (d - 1) as nat);
        let p = q.push(t);
        assert forall|i: int| 0 <= i < p.len() - 1 implies #[trigger] g.edge(p[i], p[i + 1]) by {
            if i < q.len() - 1 {
                assert(g.edge(q[i], q[i + 1]));
            } else {
                assert(p[i] == u);
            }
        }
        p
    }
}

/// The distance to a reachable target is the hop count of some edge walk
/// from the start, and no edge walk between the two has fewer hops.
pub proof fn lemma_distance_is_shortest_path(g: GraphModel, s: usize, t: usize)
    requires
        g.reachable(s, t),
    ensures
        exists|p: Seq<usize>| g.is_path(p, s, t) && p.len() == g.distance(s, t) + 1,
        forall|p: Seq<usize>| g.is_path(p, s, t) ==> p.len() >= g.distance(s, t) + 1,
{
    let d0 = choose|d: nat| g.reach_within(s, t, d);
    lemma_distance_exists(g, s, t, d0);
    let d = g.distance(s, t);
    let p = lemma_reach_has_path(g, s, t, d);
    if p.len() < d + 1 {
        lemma_path_reaches(g, p, s, t);
        assert(!g.reach_within(s, t, (p.len() - 1) as nat));
    }
    assert forall|q: Seq<usize>| g.is_path(q, s, t) implies q.len() >= g.distance(s, t) + 1 by {
        lemma_path_reaches(g, q, s, t);
        if q.len() < d + 1 {
            assert(!g.reach_within(s, t, (q.len() - 1) as nat));
        }
    }
}

/// A set of nodes that no edge leaves keeps every walk from one of its
/// nodes inside it: nothing outside is reachable from within.
pub proof fn lemma_closed_set_unreachable(g: GraphModel, s: Set<usize>, a: usize, c: usize)
    requires
        s.contains(a),
        !s.contains(c),
        forall|u: usize, v: usize| s.contains(u) && #[trigger] g.edge(u, v) ==> s.contains(v),
    ensures
        !g.reachable(a, c),
{
    assert forall|d: nat| !#[trigger] g.reach_within(a, c, d) by {
        lemma_reach_stays(g, s, a, c, d);
    }
}

proof fn lemma_reach_stays(g: GraphModel, s: Set<usize>, a: usize, t: usize, d: nat)
    requires
        s.contains(a),
        forall|u: usize, v: usize| s.contains(u) && #[trigger] g.edge(u, v) ==> s.contains(v),
    ensures
        g.reach_within(a, t, d) ==> s.contains(t),
    decreases d,
{
    if g.reach_within(a, t, d) && a != t {
        let u = choose|u: usize| #![trigger g.edge(u, t)] g.reach_within(a, u, (d - 1) as nat) && g.edge(u, t);
        lemma_reach_stays(g, s, a, u, (d - 1) as nat);
    }
}

/// From an id that the graph does not know nothing else is reached.
proof fn lemma_reach_from_unknown(g: GraphModel, s: usize, t: usize, d: nat)
    requires
        g.reach_within(s, t, d),
        s >= g.n(),
    ensures
        t == s,
    decreases d,
{
    if s != t {
        let u = choose|u: usize| #![trigger g.edge(u, t)] g.reach_within(s, u, (d - 1) as nat) && g.edge(u, t);
        lemma_reach_from_unknown(g, s, u, (d - 1) as nat);
    }
}

/// Exactly `d` hops are needed to reach `v`.
pub open spec fn at_layer(g: GraphModel, s: usize, v: usize, d: nat) -> bool {
    g.reach_within(s, v, d) && (d == 0 || !g.reach_within(s, v, (d - 1) as nat))
}

pub(crate) proof fn lemma_count_false(k: nat)
    ensures
        count_true(Seq::new(k, |i: int| false)) == 0,
    decreases k,
{
    if k > 0 {
        assert(Seq::new(k, |i: int| false).drop_last() =~= Seq::new((k - 1) as nat, |i: int| false));
        lemma_count_false((k - 1) as nat);
    }
}

impl Graph {
    /// Marks every unvisited out-neighbour of `u` and appends it to `next`;
    /// stops early, returning `true`, when `target` is among them.
    fn expand(&self, u: usize, target: usize, visited: &mut Vec<bool>, next: &mut Vec<usize>, seen: &mut usize) -> (found: bool)
        requires
            self.wf(),
            u < self@.n(),
            old(visited)@.len() == self@.n(),
            *old(seen) == count_true(old(visited)@),
            forall|v: usize| #[trigger] old(next)@.contains(v) ==> v < self@.n() && old(visited)@[v as int],
            target < self@.n() ==> !old(visited)@[target as int],
        ensures
            found ==> target < self@.n() && self@.edge(u, target),
            !found ==> {
                &&& final(visited)@.len() == self@.n()
                &&& *final(seen) == count_true(final(visited)@)
                &&& final(next)@.len() - old(next)@.len() == *final(seen) - *old(seen)
                &&& old(next)@.len() <= final(next)@.len()
                &&& final(next)@.subrange(0, old(next)@.len() as int) == old(next)@
                &&& forall|k: int| old(next)@.len() <= k < final(next)@.len() ==>
                    self@.edge(u, #[trigger] final(next)@[k]) && !old(visited)@[final(next)@[k] as int]
                &&& forall|v: usize| #![trigger final(visited)@[v as int]] v < self@.n() ==> (final(visited)@[v as int] <==> (old(visited)@[v as int] || final(next)@.contains(v)))
                &&& forall|v: usize| #[trigger] final(next)@.contains(v) ==> v < self@.n()
                &&& forall|j: int| 0 <= j < self@.succ[u as int].len() ==> #[trigger] final(visited)@[self@.succ[u as int][j] as int]
                &&& target < self@.n() ==> !final(visited)@[target as int]
            },
    {
        let ghost g = self@;
        let ghost v0 = visited@;
        let ghost n0 = next@;
        let ghost s0 = *seen;
        let n = self.num_ids();
        let deg = self.out_degree(u);
        let mut j: usize = 0;
        while j < deg
            invariant
                g == self@,
                n == g.n(),
                g.wf(),
                u < g.n(),
                deg == g.succ[u as int].len(),
                j <= deg,
                visited@.len() == g.n(),
                v0.len() == g.n(),
                *seen == count_true(visited@),
                next@.len() - n0.len() == *seen - s0,
                n0.len() <= next@.len(),
                next@.subrange(0, n0.len() as int) == n0,
                forall|v: usize| #[trigger] n0.contains(v) ==> v < g.n() && v0[v as int],
                forall|k: int| n0.len() <= k < next@.len() ==>
                    g.edge(u, #[trigger] next@[k]) && !v0[next@[k] as int],
                forall|v: usize| #![trigger visited@[v as int]] v < g.n() ==> (visited@[v as int] <==> (v0[v as int] || next@.contains(v))),
                forall|v: usize| #[trigger] next@.contains(v) ==> v < g.n(),
                forall|k: int| 0 <= k < j ==> #[trigger] visited@[g.succ[u as int][k] as int],
                target < g.n() ==> !visited@[target as int],
            decreases deg - j,
        {
            let w = self.neighbor(u, j);
            assert(g.succ[u as int].contains(w));
            if !visited[w] {
                if w == target {
                    return true;
                }
                let ghost vb = visited@;
                let ghost nb = next@;
                proof {
                    lemma_count_true_le(visited@);
                    lemma_count_true_set(visited@, w as int);
                    lemma_count_true_le(visited@.update(w as int, true));
                }
                visited.set(w, true);
                next.push(w);
                *seen = *seen + 1;
                assert(next@ == nb.push(w));
                assert(next@.subrange(0, n0.len() as int) =~= nb.subrange(0, n0.len() as int));
                assert forall|v: usize| #[trigger] next@.contains(v) implies v < g.n() by {
                    if v != w {
                        let k = choose|k: int| 0 <= k < next@.len() && next@[k] == v;
                        assert(nb[k] == v);
                        assert(nb.contains(v));
                    }
                }
                assert forall|v: usize| v < g.n() implies (visited@[v as int] <==> (v0[v as int] || next@.contains(v))) by {
                    if v != w {
                        if next@.contains(v) {
                            let k = choose|k: int| 0 <= k < next@.len() && next@[k] == v;
                            assert(nb[k] == v);
                        }
                        if nb.contains(v) {
                            let k = choose|k: int| 0 <= k < nb.len() && nb[k] == v;
                            assert(next@[k] == v);
                        }
                        assert(vb[v as int] <==> (v0[v as int] || nb.contains(v)));
                    } else {
                        assert(next@[next@.len() - 1] == w);
                    }
                }
                assert forall|k: int| n0.len() <= k < next@.len() implies
                    g.edge(u, #[trigger] next@[k]) && !v0[next@[k] as int] by {
                    if k < nb.len() {
                        assert(next@[k] == nb[k]);
                        assert(g.edge(u, nb[k]));
                    } else {
                        assert(!vb[w as int]);
                        if v0[w as int] {
                            assert(vb[w as int]);
                        }
                    }
                }
            }
            j += 1;
        }
        false
    }

    /// Shortest hop count from `start` to `target` by breadth-first search,
    /// or `UNREACHABLE` when no path exists.
    pub fn bfs_distance(&self, start: usize, target: usize) -> (r: usize)
        requires
            self.wf(),
        ensures
            start == target ==> r == 0,
            self@.reachable(start, target) ==> r == self@.distance(start, target),
            self@.reachable(start, target) <==> r != UNREACHABLE,
            r != UNREACHABLE ==> r == 0 || r < self@.n(),
    {
        let ghost g = self@;
        if start == target {
            proof {
                assert(g.reach_within(start, target, 0));
                assert(g.is_distance(start, target, 0));
                lemma_distance_unique(g, start, target, 0);
            }
            return 0;
        }
        let n = self.num_ids();
        if start >= n {
            proof {
                assert forall|d: nat| !g.reach_within(start, target, d) by {
                    if g.reach_within(start, target, d) {
                        lemma_reach_from_unknown(g, start, target, d);
                    }
                }
            }
            return UNREACHABLE;
        }
        let mut visited: Vec<bool> = vec![false; n];
        proof {
            assert(visited@ =~= Seq::new(n as nat, |i: int| false));
            lemma_count_false(n as nat);
            lemma_count_true_set(visited@, start as int);
        }
        visited.set(start, true);
        let mut frontier: Vec<usize> = vec![start];
        let mut d: usize = 0;
        let mut seen: usize = 1;
        proof {
            lemma_count_true_le(visited@);
            assert forall|v: usize| #[trigger] frontier@.contains(v) <==> (v < n && at_layer(g, start, v, 0)) by {
                if frontier@.contains(v) {
                    assert(frontier@[0] == start);
                }
                if v == start {
                    assert(frontier@[0] == start);
                }
            }
        }
        loop
            invariant
                g == self@,
                g.wf(),
                n == g.n(),
                start < n,
                start != target,
                visited@.len() == n,
                forall|v: usize| #![trigger visited@[v as int]] v < n ==> (visited@[v as int] <==> g.reach_within(start, v, d as nat)),
                forall|v: usize| #[trigger] frontier@.contains(v) <==> (v < n && at_layer(g, start, v, d as nat)),
                !g.reach_within(start, target, d as nat),
                seen == count_true(visited@),
                d < seen,
                seen <= n,
            decreases n - seen,
        {
            let ghost before = visited@;
            let mut next: Vec<usize> = Vec::new();
            let mut i: usize = 0;
            while i < frontier.len()
                invariant
                    g == self@,
                    g.wf(),
                    n == g.n(),
                    start < n,
                    start != target,
                    visited@.len() == n,
                    before.len() == n,
                    forall|v: usize| #![trigger before[v as int]] v < n ==> (before[v as int] <==> g.reach_within(start, v, d as nat)),
                    forall|v: usize| #[trigger] frontier@.contains(v) <==> (v < n && at_layer(g, start, v, d as nat)),
                    i <= frontier@.len(),
                    forall|v: usize| #![trigger visited@[v as int]] v < n ==> (visited@[v as int] <==> (before[v as int] || next@.contains(v))),
                    forall|v: usize| #[trigger] next@.contains(v) ==> v < n && at_layer(g, start, v, (d + 1) as nat),
                    forall|k: int, j: int|
                        0 <= k < i && 0 <= j < g.succ[frontier@[k] as int].len() ==> #[trigger] visited@[g.succ[frontier@[k] as int][j] as int],
                    target < n ==> !visited@[target as int],
                    !g.reach_within(start, target, d as nat),
                    seen == count_true(visited@),
                    seen == count_true(before) + next@.len(),
                    d < count_true(before),
                decreases frontier@.len() - i,
            {
                let u = frontier[i];
                assert(frontier@.contains(u));
                let ghost vb = visited@;
                let ghost nb = next@;
                assert forall|v: usize| #[trigger] nb.contains(v) implies v < n && vb[v as int] by {
                    assert(v < n);
                    assert(visited@[v as int] <==> (before[v as int] || next@.contains(v)));
                }
                let ghost sb = seen;
                let found = self.expand(u, target, &mut visited, &mut next, &mut seen);
                if found {
                    proof {
                        assert(g.reach_within(start, target, (d + 1) as nat));
                        assert forall|e: nat| e < d + 1 implies !#[trigger] g.reach_within(start, target, e) by {
                            if g.reach_within(start, target, e) {
                                lemma_reach_mono(g, start, target, e, d as nat);
                            }
                        }
                        assert(g.is_distance(start, target, (d + 1) as nat));
                        lemma_distance_unique(g, start, target, (d + 1) as nat);
                        assert(!vb[target as int]);
                        lemma_count_true_set(vb, target as int);
                        lemma_count_true_le(vb.update(target as int, true));
                    }
                    return d + 1;
                }
                proof {
                    assert forall|v: usize| #[trigger] next@.contains(v) implies v < n && at_layer(g, start, v, (d + 1) as nat) by {
                        let k = choose|k: int| 0 <= k < next@.len() && next@[k] == v;
                        if k < nb.len() {
                            assert(next@.subrange(0, nb.len() as int)[k] == next@[k]);
                            assert(nb[k] == next@[k]);
                            assert(nb.contains(v));
                        } else {
                            assert(g.edge(u, v));
                            assert(!vb[v as int]);
                            assert(g.reach_within(start, u, d as nat));
                            assert(g.reach_within(start, v, (d + 1) as nat));
                        }
                    }
                    assert forall|v: usize| v < n implies (visited@[v as int] <==> (before[v as int] || next@.contains(v))) by {
                        if nb.contains(v) {
                            let k = choose|k: int| 0 <= k < nb.len() && nb[k] == v;
                            assert(next@.subrange(0, nb.len() as int)[k] == next@[k]);
                            assert(next@[k] == v);
                        }
                        assert(vb[v as int] <==> (before[v as int] || nb.contains(v)));
                    }
                    assert forall|k: int, j: int|
                        0 <= k < i + 1 && 0 <= j < g.succ[frontier@[k] as int].len() implies #[trigger] visited@[g.succ[frontier@[k] as int][j] as int] by {
                        let w = g.succ[frontier@[k] as int][j];
                        if k < i {
                            assert(vb[w as int]);
                            assert(frontier@.contains(frontier@[k]));
                            assert(w < n);
                            assert(visited@[w as int] <==> (vb[w as int] || next@.contains(w)));
                        } else {
                            assert(frontier@[k] == u);
                        }
                    }
                }
                i += 1;
            }
            proof {
                lemma_count_true_le(visited@);
                assert forall|v: usize| v < n implies (visited@[v as int] <==> g.reach_within(start, v, (d + 1) as nat)) by {
                    if visited@[v as int] {
                        if before[v as int] {
                            lemma_reach_step(g, start, v, d as nat);
                        }
                    }
                    if g.reach_within(start, v, (d + 1) as nat) && !before[v as int] && v != start {
                        let u = choose|u: usize|
                            #![trigger g.edge(u, v)]
                            g.reach_within(start, u, d as nat) && g.edge(u, v);
                        if d > 0 && g.reach_within(start, u, (d - 1) as nat) {
                            assert(g.reach_within(start, v, d as nat));
                        }
                        assert(at_layer(g, start, u, d as nat));
                        assert(frontier@.contains(u));
                        let k = choose|k: int| 0 <= k < frontier@.len() && frontier@[k] == u;
                        let j = choose|j: int| 0 <= j < g.succ[u as int].len() && g.succ[u as int][j] == v;
                        assert(visited@[g.succ[frontier@[k] as int][j] as int]);
                    }
                }
                if target < n {
                    assert(!g.reach_within(start, target, (d + 1) as nat));
                } else {
                    if g.reach_within(start, target, (d + 1) as nat) {
                        lemma_reach_known(g, start, target, (d + 1) as nat);
                    }
                }
            }
            if next.len() == 0 {
                proof {
                    assert forall|v: usize| #[trigger] g.reach_within(start, v, (d + 1) as nat) implies g.reach_within(start, v, d as nat) by {
                        if v != start {
                            lemma_reach_known(g, start, v, (d + 1) as nat);
                            if !g.reach_within(start, v, d as nat) {
                                assert(visited@[v as int]);
                                assert(!before[v as int]);
                                assert(visited@[v as int] <==> (before[v as int] || next@.contains(v)));
                                assert(next@.contains(v));
                            }
                        }
                    }
                    assert forall|e: nat| !g.reach_within(start, target, e) by {
                        if g.reach_within(start, target, e) {
                            lemma_reach_closed(g, start, d as nat, target, e);
                        }
                    }
                }
                return UNREACHABLE;
            }
            proof {
                assert forall|v: usize| #[trigger] next@.contains(v) <==> (v < n && at_layer(g, start, v, (d + 1) as nat)) by {
                    if v < n && at_layer(g, start, v, (d + 1) as nat) {
                        assert(visited@[v as int]);
                        assert(!before[v as int]);
                    }
                }
            }
            frontier = next;
            d = d + 1;
        }
    }
}

} // verus!
