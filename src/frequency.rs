use vstd::prelude::*;

use crate::graph::{lemma_keys_below, Graph, GraphModel};
use crate::path::{count_true, lemma_count_false, lemma_count_true_le, lemma_count_true_set};

verus! {

/// A recorded path: an edge walk of at least two nodes, none repeated.
pub open spec fn is_recorded_path(g: GraphModel, p: Seq<usize>) -> bool {
    &&& p.len() >= 2
    &&& g.is_path(p, p[0], p.last())
    &&& p.no_duplicates()
}

/// How often `v` occurs in `p`.
pub open spec fn count_in(p: Seq<usize>, v: usize) -> nat
    decreases p.len(),
{
    if p.len() == 0 {
        0
    } else {
        count_in(p.drop_last(), v) + if p.last() == v {
            1nat
        } else {
            0nat
        }
    }
}

/// How often `v` occurs over all the paths of `ps`.
pub open spec fn occurrences(ps: Seq<Seq<usize>>, v: usize) -> nat
    decreases ps.len(),
{
    if ps.len() == 0 {
        0
    } else {
        occurrences(ps.drop_last(), v) + count_in(ps.last(), v)
    }
}

/// The integer percentage of `v`'s occurrences per recorded path (0 when
/// nothing was recorded).
pub open spec fn frequency_score(ps: Seq<Seq<usize>>, v: usize) -> nat {
    if ps.len() == 0 {
        0
    } else {
        occurrences(ps, v) * 100 / ps.len()
    }
}

proof fn lemma_count_in_absent(p: Seq<usize>, v: usize)
    requires
        !p.contains(v),
    ensures
        count_in(p, v) == 0,
    decreases p.len(),
{
    if p.len() > 0 {
        assert(!p.drop_last().contains(v)) by {
            if p.drop_last().contains(v) {
                let k = choose|k: int| 0 <= k < p.drop_last().len() && p.drop_last()[k] == v;
                assert(p[k] == v);
            }
        }
        lemma_count_in_absent(p.drop_last(), v);
        assert(p.last() != v) by {
            if p.last() == v {
                assert(p[p.len() - 1] == v);
            }
        }
    }
}

proof fn lemma_count_in_once(p: Seq<usize>, v: usize)
    requires
        p.no_duplicates(),
    ensures
        count_in(p, v) <= 1,
    decreases p.len(),
{
    if p.len() > 0 {
        let q = p.drop_last();
        assert(q.no_duplicates()) by {
            assert forall|i: int, j: int| 0 <= i < q.len() && 0 <= j < q.len() && i != j implies q[i] != q[j] by {
                assert(p[i] != p[j]);
            }
        }
        lemma_count_in_once(q, v);
        if p.last() == v {
            assert(!q.contains(v)) by {
                if q.contains(v) {
                    let k = choose|k: int| 0 <= k < q.len() && q[k] == v;
                    assert(p[k] != p[p.len() - 1]);
                }
            }
            lemma_count_in_absent(q, v);
        }
    }
}

/// Some path recorded from position `from` on ends at `v`.
pub open spec fn ends_recorded(out: Seq<Vec<usize>>, from: int, v: usize) -> bool {
    exists|k: int| from <= k < out.len() && (#[trigger] out[k])@.last() == v
}

/// Some path of `ps` leads from `s` to `v`.
pub open spec fn recorded_from(ps: Seq<Vec<usize>>, s: usize, v: usize) -> bool {
    exists|k: int| 0 <= k < ps.len() && (#[trigger] ps[k])@[0] == s && ps[k]@.last() == v
}

/// Some path on the stack ends at `v`.
pub open spec fn on_stack(stack: Seq<Vec<usize>>, v: usize) -> bool {
    exists|k: int| 0 <= k < stack.len() && (#[trigger] stack[k])@.last() == v
}

/// A visited set that holds `start` and every out-neighbour of its members
/// holds every node reachable from `start`.
proof fn lemma_closed_visited(g: GraphModel, visited: Seq<bool>, start: usize, t: usize, d: nat)
    requires
        g.wf(),
        visited.len() == g.n(),
        start < g.n(),
        visited[start as int],
        forall|v: usize, j: int|
            v < g.n() && visited[v as int] && 0 <= j < g.succ[v as int].len() ==> visited[#[trigger] g.succ[v as int][j] as int],
        g.reach_within(start, t, d),
    ensures
        t < g.n(),
        visited[t as int],
    decreases d,
{
    if t != start {
        let u = choose|u: usize| #![trigger g.edge(u, t)] g.reach_within(start, u, (d - 1) as nat) && g.edge(u, t);
        lemma_closed_visited(g, visited, start, u, (d - 1) as nat);
        let j = choose|j: int| 0 <= j < g.succ[u as int].len() && g.succ[u as int][j] == t;
        assert(g.succ[u as int][j] < g.n());
        assert(visited[g.succ[u as int][j] as int]);
    }
}

/// The paths of `ps` as sequences.
pub open spec fn views(ps: Seq<Vec<usize>>) -> Seq<Seq<usize>> {
    ps.map_values(|p: Vec<usize>| p@)
}

/// One expansion step of the depth-first enumeration: for the out-neighbours
/// of the last node of `path` from the `j`-th on, in order, each one not yet
/// visited extends `path`; the extended path is pushed on the stack and
/// recorded.
pub open spec fn push_neighbours(
    g: GraphModel,
    path: Seq<usize>,
    j: nat,
    visited: Seq<bool>,
    stack: Seq<Seq<usize>>,
    out: Seq<Seq<usize>>,
) -> (Seq<Seq<usize>>, Seq<Seq<usize>>)
    decreases g.degree(path.last()) - j,
{
    let x = path.last();
    if j >= g.degree(x) {
        (stack, out)
    } else {
        let nb = g.succ[x as int][j as int];
        if 0 <= nb < visited.len() && !visited[nb as int] {
            push_neighbours(g, path, j + 1, visited, stack.push(path.push(nb)), out.push(path.push(nb)))
        } else {
            push_neighbours(g, path, j + 1, visited, stack, out)
        }
    }
}

/// The depth-first enumeration with an explicit stack: pop a path; if its
/// last node is unvisited, mark it and expand it. The result is `out` with
/// every path recorded along the way appended, in order.
pub open spec fn dfs_run(g: GraphModel, stack: Seq<Seq<usize>>, visited: Seq<bool>, out: Seq<Seq<usize>>) -> Seq<Seq<usize>>
    decreases visited.len() - count_true(visited), stack.len(),
    via dfs_run_decreases
{
    if stack.len() == 0 {
        out
    } else {
        let path = stack.last();
        let rest = stack.drop_last();
        let x = path.last();
        if path.len() == 0 || x >= visited.len() || visited[x as int] {
            dfs_run(g, rest, visited, out)
        } else {
            let marked = visited.update(x as int, true);
            let (s2, o2) = push_neighbours(g, path, 0, marked, rest, out);
            dfs_run(g, s2, marked, o2)
        }
    }
}

#[via_fn]
proof fn dfs_run_decreases(g: GraphModel, stack: Seq<Seq<usize>>, visited: Seq<bool>, out: Seq<Seq<usize>>) {
    lemma_count_true_le(visited);
    if stack.len() > 0 {
        let path = stack.last();
        let x = path.last();
        if !(path.len() == 0 || x >= visited.len() || visited[x as int]) {
            lemma_count_true_set(visited, x as int);
            lemma_count_true_le(visited.update(x as int, true));
        }
    }
}

/// Every path recorded by the enumerations from the keys of `ks`, one
/// start after another, each with a visited set of its own.
pub open spec fn all_recorded(g: GraphModel, ks: Seq<usize>) -> Seq<Seq<usize>>
    decreases ks.len(),
{
    if ks.len() == 0 {
        Seq::empty()
    } else {
        dfs_run(g, seq![seq![ks.last()]], Seq::new(g.n(), |i: int| false), all_recorded(g, ks.drop_last()))
    }
}

/// `path` with `node` appended.
fn extended(path: &Vec<usize>, node: usize) -> (r: Vec<usize>)
    ensures
        r@ == path@.push(node),
{
    let mut r: Vec<usize> = Vec::new();
    let mut i: usize = 0;
    while i < path.len()
        invariant
            i <= path@.len(),
            r@ == path@.subrange(0, i as int),
        decreases path@.len() - i,
    {
        r.push(path[i]);
        i += 1;
        assert(r@ =~= path@.subrange(0, i as int));
    }
    r.push(node);
    assert(r@ =~= path@.push(node));
    r
}

proof fn lemma_occurrences_bound(ps: Seq<Seq<usize>>, v: usize)
    requires
        forall|k: int| 0 <= k < ps.len() ==> (#[trigger] ps[k]).no_duplicates(),
    ensures
        occurrences(ps, v) <= ps.len(),
    decreases ps.len(),
{
    if ps.len() > 0 {
        let q = ps.drop_last();
        assert forall|k: int| 0 <= k < q.len() implies (#[trigger] q[k]).no_duplicates() by {
            assert(q[k] == ps[k]);
        }
        lemma_occurrences_bound(q, v);
        assert(ps.last().no_duplicates()) by {
            assert(ps[ps.len() - 1].no_duplicates());
        }
        lemma_count_in_once(ps.last(), v);
    }
}

/// How often `v` occurs in `p`.
fn count_node(p: &Vec<usize>, v: usize) -> (r: usize)
    ensures
        r == count_in(p@, v),
{
    let mut r: usize = 0;
    let mut i: usize = 0;
    while i < p.len()
        invariant
            i <= p@.len(),
            r == count_in(p@.subrange(0, i as int), v),
            r <= i,
        decreases p@.len() - i,
    {
        assert(p@.subrange(0, i + 1).drop_last() =~= p@.subrange(0, i as int));
        if p[i] == v {
            r += 1;
        }
        i += 1;
    }
    assert(p@.subrange(0, p@.len() as int) =~= p@);
    r
}

/// The score of every node of `nodes` over the recorded paths `ps`: its
/// number of occurrences times 100, divided (rounding down) by the number
/// of paths; 0 for all when `ps` is empty.
pub fn frequency_scores(nodes: &Vec<usize>, ps: &Vec<Vec<usize>>) -> (r: Vec<(usize, usize)>)
    requires
        forall|k: int| 0 <= k < ps@.len() ==> (#[trigger] ps@[k])@.no_duplicates(),
    ensures
        r@.len() == nodes@.len(),
        forall|i: int| 0 <= i < r@.len() ==> #[trigger] r@[i] == (nodes@[i], frequency_score(ps@.map_values(|p: Vec<usize>| p@), nodes@[i]) as usize),
        forall|i: int| 0 <= i < r@.len() ==> #[trigger] r@[i].1 <= 100,
{
    let ghost all = ps@.map_values(|p: Vec<usize>| p@);
    let mut r: Vec<(usize, usize)> = Vec::new();
    let mut i: usize = 0;
    while i < nodes.len()
        invariant
            all == ps@.map_values(|p: Vec<usize>| p@),
            forall|k: int| 0 <= k < ps@.len() ==> (#[trigger] ps@[k])@.no_duplicates(),
            i <= nodes@.len(),
            r@.len() == i,
            forall|a: int| 0 <= a < i ==> #[trigger] r@[a] == (nodes@[a], frequency_score(all, nodes@[a]) as usize),
            forall|a: int| 0 <= a < i ==> #[trigger] r@[a].1 <= 100,
        decreases nodes@.len() - i,
    {
        let v = nodes[i];
        let mut count: usize = 0;
        let mut k: usize = 0;
        while k < ps.len()
            invariant
                all == ps@.map_values(|p: Vec<usize>| p@),
                forall|k: int| 0 <= k < ps@.len() ==> (#[trigger] ps@[k])@.no_duplicates(),
                k <= ps@.len(),
                count == occurrences(all.subrange(0, k as int), v),
                count <= k,
            decreases ps@.len() - k,
        {
            let c = count_node(&ps[k], v);
            proof {
                let pre = all.subrange(0, k as int);
                let post = all.subrange(0, k + 1);
                assert(post.drop_last() =~= pre);
                assert(post.last() == ps@[k as int]@);
                lemma_count_in_once(ps@[k as int]@, v);
            }
            count = count + c;
            k += 1;
        }
        assert(all.subrange(0, ps@.len() as int) =~= all);
        let score: usize = if ps.len() == 0 {
            0
        } else {
            proof {
                assert(count as int * 100 <= ps@.len() * 100) by (nonlinear_arith)
                    requires
                        count <= ps@.len(),
                ;
                assert((count as int * 100) / (ps@.len() as int) <= 100) by (nonlinear_arith)
                    requires
                        count <= ps@.len(),
                        ps@.len() > 0,
                ;
            }
            ((count as u128 * 100) / ps.len() as u128) as usize
        };
        r.push((v, score));
        i += 1;
    }
    r
}

/// Some path of `ps` leads from `s` to `v`.
pub open spec fn leads(ps: Seq<Seq<usize>>, s: usize, v: usize) -> bool {
    exists|k: int| 0 <= k < ps.len() && (#[trigger] ps[k])[0] == s && ps[k].last() == v
}

/// `r` holds, for each key in order, its score over the paths `ps`, which
/// are recorded paths from keys, with one from each key to every other node
/// that the key reaches. (Applied to the paths of `all_recorded`, the last
/// two facts are proved properties of the enumeration.)
pub open spec fn scored_over(g: GraphModel, ps: Seq<Seq<usize>>, r: Seq<(usize, usize)>) -> bool {
    &&& forall|k: int| 0 <= k < ps.len() ==> is_recorded_path(g, #[trigger] ps[k]) && g.key(ps[k][0])
    &&& forall|s: usize, v: usize| g.key(s) && v != s && #[trigger] g.reachable(s, v) ==> leads(ps, s, v)
    &&& r.len() == g.keys().len()
    &&& forall|i: int| 0 <= i < r.len() ==> #[trigger] r[i] == (g.keys()[i], frequency_score(ps, g.keys()[i]) as usize)
}

/// Traversal-frequency centrality of every key, in key order: the integer
/// percentage with which the key occurs across all the paths recorded by
/// the depth-first enumeration from each key (`all_recorded`).
pub fn path_frequency_centrality(graph: &Graph) -> (r: Vec<(usize, usize)>)
    requires
        graph.wf(),
    ensures
        r@.len() == graph@.keys().len(),
        scored_over(graph@, all_recorded(graph@, graph@.keys()), r@),
{
    let ps = graph.record_paths();
    let keys = graph.keys();
    let r = frequency_scores(&keys, &ps);
    let ghost all = ps@.map_values(|p: Vec<usize>| p@);
    assert forall|k: int| 0 <= k < all.len() implies is_recorded_path(graph@, #[trigger] all[k]) && graph@.key(all[k][0]) by {
        assert(is_recorded_path(graph@, ps@[k]@));
    }
    assert forall|s: usize, v: usize| graph@.key(s) && v != s && #[trigger] graph@.reachable(s, v) implies leads(all, s, v) by {
        assert(recorded_from(ps@, s, v));
        let k = choose|k: int| 0 <= k < ps@.len() && (#[trigger] ps@[k])@[0] == s && ps@[k]@.last() == v;
        assert(all[k] == ps@[k]@);
    }
    assert(scored_over(graph@, all, r@));
    r
}

impl Graph {
    /// Depth-first enumeration from `start` with an explicit stack and a
    /// visited set of its own: each time a path is extended by an
    /// unvisited neighbour, the extended path is appended to `out`.
    fn record_paths_from(&self, start: usize, out: &mut Vec<Vec<usize>>)
        requires
            self.wf(),
            start < self@.n(),
        ensures
            old(out)@.len() <= final(out)@.len(),
            final(out)@.subrange(0, old(out)@.len() as int) == old(out)@,
            forall|k: int|
                old(out)@.len() <= k < final(out)@.len() ==> is_recorded_path(self@, #[trigger] final(out)@[k]@)
                    && final(out)@[k]@[0] == start,
            forall|v: usize|
                v != start && #[trigger] self@.reachable(start, v) ==> ends_recorded(final(out)@, old(out)@.len() as int, v),
            views(final(out)@) == dfs_run(self@, seq![seq![start]], Seq::new(self@.n(), |i: int| false), views(old(out)@)),
    {
        let ghost g = self@;
        let ghost out0 = out@;
        let ghost target = dfs_run(g, seq![seq![start]], Seq::new(g.n(), |i: int| false), views(out@));
        let ghost l0 = out@.len() as int;
        let n = self.num_ids();
        let mut visited: Vec<bool> = vec![false; n];
        proof {
            assert(visited@ =~= Seq::new(n as nat, |i: int| false));
            lemma_count_false(n as nat);
        }
        let mut seen: usize = 0;
        let mut stack: Vec<Vec<usize>> = Vec::new();
        let first: Vec<usize> = vec![start];
        stack.push(first);
        proof {
            assert(g.is_path(stack@[0]@, start, start));
            assert(stack@[0]@.last() == start);
            assert(out@.subrange(0, l0) =~= out0);
            assert(stack@[0]@ =~= seq![start]);
            assert(views(stack@) =~= seq![seq![start]]);
        }
        while stack.len() > 0
            invariant
                dfs_run(g, views(stack@), visited@, views(out@)) == target,
                g == self@,
                g.wf(),
                n == g.n(),
                start < n,
                visited@.len() == n,
                seen == count_true(visited@),
                0 <= l0 <= out@.len(),
                out@.subrange(0, l0) == out0,
                forall|k: int| l0 <= k < out@.len() ==> is_recorded_path(g, #[trigger] out@[k]@) && out@[k]@[0] == start,
                forall|k: int|
                    0 <= k < stack@.len() ==> {
                        let q = #[trigger] stack@[k]@;
                        &&& q.len() >= 1
                        &&& q[0] == start
                        &&& g.is_path(q, q[0], q.last())
                        &&& q.no_duplicates()
                        &&& forall|a: int| 0 <= a < q.len() ==> #[trigger] q[a] < n
                        &&& forall|a: int| 0 <= a < q.len() - 1 ==> #[trigger] visited@[q[a] as int]
                        &&& (q.len() == 1 || ends_recorded(out@, l0, q.last()))
                    },
                forall|v: usize| v < n && #[trigger] visited@[v as int] ==> v == start || ends_recorded(out@, l0, v),
                forall|v: usize, j: int|
                    v < n && visited@[v as int] && 0 <= j < g.succ[v as int].len() ==> visited@[#[trigger] g.succ[v as int][j] as int]
                        || on_stack(stack@, g.succ[v as int][j]),
                visited@[start as int] || on_stack(stack@, start),
            decreases n - seen, stack@.len(),
        {
            proof {
                lemma_count_true_le(visited@);
            }
            let ghost st = stack@;
            let path = stack.pop().unwrap();
            assert(path@ == st[st.len() - 1]@);
            assert(stack@ =~= st.subrange(0, st.len() - 1));
            let x = path[path.len() - 1];
            assert(x == path@.last());
            assert(views(st).last() == path@);
            assert(views(st).drop_last() =~= views(stack@));
            // whatever stood on the stack still does, but for `path`, which ends at `x`
            assert forall|w: usize| on_stack(st, w) implies on_stack(stack@, w) || w == x by {
                let k = choose|k: int| 0 <= k < st.len() && (#[trigger] st[k])@.last() == w;
                if k < st.len() - 1 {
                    assert(stack@[k] == st[k]);
                }
            }
            if visited[x] {
                assert forall|k: int| 0 <= k < stack@.len() implies {
                    let q = #[trigger] stack@[k]@;
                    &&& q.len() >= 1
                    &&& q[0] == start
                    &&& g.is_path(q, q[0], q.last())
                    &&& q.no_duplicates()
                    &&& forall|a: int| 0 <= a < q.len() ==> #[trigger] q[a] < n
                    &&& forall|a: int| 0 <= a < q.len() - 1 ==> #[trigger] visited@[q[a] as int]
                    &&& (q.len() == 1 || ends_recorded(out@, l0, q.last()))
                } by {
                    assert(stack@[k] == st[k]);
                }
                assert forall|v: usize, j: int|
                    v < n && visited@[v as int] && 0 <= j < g.succ[v as int].len() implies visited@[#[trigger] g.succ[v as int][j] as int]
                        || on_stack(stack@, g.succ[v as int][j]) by {
                    let w = g.succ[v as int][j];
                    if !visited@[w as int] {
                        assert(on_stack(st, w));
                    }
                }
                continue;
            }
            proof {
                lemma_count_true_set(visited@, x as int);
                lemma_count_true_le(visited@.update(x as int, true));
            }
            let ghost vis0 = visited@;
            visited.set(x, true);
            seen = seen + 1;
            assert(dfs_run(g, views(st), vis0, views(out@)) == dfs_run(
                g,
                push_neighbours(g, path@, 0, visited@, views(stack@), views(out@)).0,
                visited@,
                push_neighbours(g, path@, 0, visited@, views(stack@), views(out@)).1,
            ));
            assert(path@.len() == 1 ==> x == start) by {
                if path@.len() == 1 {
                    assert(path@[0] == start);
                }
            }
            assert(x == start || ends_recorded(out@, l0, x));
            assert forall|a: int| 0 <= a < path@.len() implies #[trigger] visited@[path@[a] as int] by {
                if a < path@.len() - 1 {
                    assert(st[st.len() - 1]@[a] == path@[a]);
                }
            }
            let deg = self.out_degree(x);
            let mut j: usize = 0;
            while j < deg
                invariant
                    dfs_run(
                        g,
                        push_neighbours(g, path@, j as nat, visited@, views(stack@), views(out@)).0,
                        visited@,
                        push_neighbours(g, path@, j as nat, visited@, views(stack@), views(out@)).1,
                    ) == target,
                    g == self@,
                    g.wf(),
                    n == g.n(),
                    start < n,
                    x < n,
                    deg == g.succ[x as int].len(),
                    j <= deg,
                    visited@.len() == n,
                    seen == count_true(visited@),
                    visited@[x as int],
                    path@.len() >= 1,
                    path@[0] == start,
                    path@.last() == x,
                    g.is_path(path@, path@[0], x),
                    path@.no_duplicates(),
                    forall|a: int| 0 <= a < path@.len() ==> #[trigger] path@[a] < n,
                    forall|a: int| 0 <= a < path@.len() ==> #[trigger] visited@[path@[a] as int],
                    0 <= l0 <= out@.len(),
                    out@.subrange(0, l0) == out0,
                    forall|k: int| l0 <= k < out@.len() ==> is_recorded_path(g, #[trigger] out@[k]@) && out@[k]@[0] == start,
                    forall|k: int|
                        0 <= k < stack@.len() ==> {
                            let q = #[trigger] stack@[k]@;
                            &&& q.len() >= 1
                            &&& q[0] == start
                            &&& g.is_path(q, q[0], q.last())
                            &&& q.no_duplicates()
                            &&& forall|a: int| 0 <= a < q.len() ==> #[trigger] q[a] < n
                            &&& forall|a: int| 0 <= a < q.len() - 1 ==> #[trigger] visited@[q[a] as int]
                            &&& (q.len() == 1 || ends_recorded(out@, l0, q.last()))
                        },
                    forall|v: usize| v < n && #[trigger] visited@[v as int] ==> v == start || ends_recorded(out@, l0, v),
                    forall|v: usize, i: int|
                        v < n && v != x && visited@[v as int] && 0 <= i < g.succ[v as int].len() ==> visited@[#[trigger] g.succ[v as int][i] as int]
                            || on_stack(stack@, g.succ[v as int][i]),
                    forall|i: int| 0 <= i < j ==> visited@[#[trigger] g.succ[x as int][i] as int] || on_stack(stack@, g.succ[x as int][i]),
                    visited@[start as int] || on_stack(stack@, start),
                decreases deg - j,
            {
                let nb = self.neighbor(x, j);
                if !visited[nb] {
                    let np = extended(&path, nb);
                    let rec = extended(&path, nb);
                    let ghost s0 = stack@;
                    let ghost o0 = out@;
                    proof {
                        let q = np@;
                        assert(g.succ[x as int].contains(nb)) by {
                            assert(g.succ[x as int][j as int] == nb);
                        }
                        assert(q.last() == nb);
                        assert(q[0] == path@[0]);
                        assert forall|i: int| 0 <= i < q.len() - 1 implies #[trigger] g.edge(q[i], q[i + 1]) by {
                            if i < path@.len() - 1 {
                                assert(g.edge(path@[i], path@[i + 1]));
                            }
                        }
                        assert forall|a: int, b: int| 0 <= a < q.len() && 0 <= b < q.len() && a != b implies q[a] != q[b] by {
                            if a < path@.len() && b < path@.len() {
                                assert(path@[a] != path@[b]);
                            } else if a < path@.len() {
                                assert(visited@[path@[a] as int]);
                            } else if b < path@.len() {
                                assert(visited@[path@[b] as int]);
                            }
                        }
                        assert(is_recorded_path(g, rec@));
                    }
                    let ghost recv = rec;
                    let ghost npv = np;
                    proof {
                        assert(push_neighbours(g, path@, j as nat, visited@, views(s0), views(o0)) == push_neighbours(
                            g,
                            path@,
                            (j + 1) as nat,
                            visited@,
                            views(s0).push(path@.push(nb)),
                            views(o0).push(path@.push(nb)),
                        ));
                    }
                    out.push(rec);
                    stack.push(np);
                    proof {
                        assert(views(out@) =~= views(o0).push(path@.push(nb)));
                        assert(views(stack@) =~= views(s0).push(path@.push(nb)));
                        assert(out@ == o0.push(recv));
                        assert(stack@ == s0.push(npv));
                        assert forall|k: int| 0 <= k < o0.len() implies #[trigger] out@[k] == o0[k] by {
                            assert(o0.push(recv)[k] == o0[k]);
                        }
                        assert forall|k: int| 0 <= k < s0.len() implies #[trigger] stack@[k] == s0[k] by {
                            assert(s0.push(npv)[k] == s0[k]);
                        }
                        assert(out@.subrange(0, l0) =~= o0.subrange(0, l0));
                        assert(out@[out@.len() - 1]@.last() == nb);
                        assert(ends_recorded(out@, l0, nb));
                        assert(stack@[stack@.len() - 1]@.last() == nb);
                        assert(on_stack(stack@, nb));
                        assert forall|w: usize| ends_recorded(o0, l0, w) implies ends_recorded(out@, l0, w) by {
                            let k = choose|k: int| l0 <= k < o0.len() && (#[trigger] o0[k])@.last() == w;
                            assert(out@[k] == o0[k]);
                        }
                        assert forall|w: usize| on_stack(s0, w) implies on_stack(stack@, w) by {
                            let k = choose|k: int| 0 <= k < s0.len() && (#[trigger] s0[k])@.last() == w;
                            assert(stack@[k] == s0[k]);
                        }
                        assert forall|k: int| l0 <= k < out@.len() implies is_recorded_path(g, #[trigger] out@[k]@) && out@[k]@[0] == start by {
                            if k < o0.len() {
                                assert(out@[k] == o0[k]);
                            }
                        }
                        assert forall|k: int| 0 <= k < stack@.len() implies {
                            let q = #[trigger] stack@[k]@;
                            &&& q.len() >= 1
                            &&& q[0] == start
                            &&& g.is_path(q, q[0], q.last())
                            &&& q.no_duplicates()
                            &&& forall|a: int| 0 <= a < q.len() ==> #[trigger] q[a] < n
                            &&& forall|a: int| 0 <= a < q.len() - 1 ==> #[trigger] visited@[q[a] as int]
                            &&& (q.len() == 1 || ends_recorded(out@, l0, q.last()))
                        } by {
                            if k < s0.len() {
                                assert(stack@[k] == s0[k]);
                            }
                        }
                    }
                } else {
                    proof {
                        assert(push_neighbours(g, path@, j as nat, visited@, views(stack@), views(out@)) == push_neighbours(
                            g,
                            path@,
                            (j + 1) as nat,
                            visited@,
                            views(stack@),
                            views(out@),
                        ));
                    }
                }
                j += 1;
            }
            proof {
                assert(push_neighbours(g, path@, j as nat, visited@, views(stack@), views(out@)) == (views(stack@), views(out@)));
                assert forall|v: usize, i: int|
                    v < n && visited@[v as int] && 0 <= i < g.succ[v as int].len() implies visited@[#[trigger] g.succ[v as int][i] as int]
                        || on_stack(stack@, g.succ[v as int][i]) by {
                    if v != x {
                        if !vis0[v as int] {
                            assert(v == x);
                        }
                    }
                }
            }
        }
        proof {
            assert(views(stack@) =~= Seq::<Seq<usize>>::empty());
            assert(dfs_run(g, views(stack@), visited@, views(out@)) == views(out@));
            assert forall|v: usize| v != start && #[trigger] g.reachable(start, v) implies ends_recorded(out@, l0, v) by {
                let d = choose|d: nat| g.reach_within(start, v, d);
                lemma_closed_visited(g, visited@, start, v, d);
            }
        }
    }

    /// Every path recorded by the depth-first enumeration from each key in
    /// turn. Each starts at a key, and for each key every other node it
    /// reaches ends some path recorded from it.
    pub fn record_paths(&self) -> (ps: Vec<Vec<usize>>)
        requires
            self.wf(),
        ensures
            forall|k: int| 0 <= k < ps@.len() ==> is_recorded_path(self@, #[trigger] ps@[k]@) && self@.key(ps@[k]@[0]),
            forall|s: usize, v: usize|
                self@.key(s) && v != s && #[trigger] self@.reachable(s, v) ==> recorded_from(ps@, s, v),
            views(ps@) == all_recorded(self@, self@.keys()),
    {
        let ghost g = self@;
        let keys = self.keys();
        proof {
            lemma_keys_below(self@, self@.is_key.len());
        }
        let mut out: Vec<Vec<usize>> = Vec::new();
        let mut i: usize = 0;
        while i < keys.len()
            invariant
                g == self@,
                self.wf(),
                keys@ == g.keys(),
                forall|a: int| 0 <= a < keys@.len() ==> g.key(#[trigger] keys@[a]),
                forall|u: usize| g.key(u) ==> #[trigger] keys@.contains(u),
                i <= keys@.len(),
                forall|k: int| 0 <= k < out@.len() ==> is_recorded_path(g, #[trigger] out@[k]@) && g.key(out@[k]@[0]),
                forall|a: int, v: usize|
                    0 <= a < i && v != keys@[a] && #[trigger] g.reachable(keys@[a], v) ==> recorded_from(out@, keys@[a], v),
                views(out@) == all_recorded(g, keys@.subrange(0, i as int)),
            decreases keys@.len() - i,
        {
            let s = keys[i];
            assert(g.key(s));
            let ghost o0 = out@;
            self.record_paths_from(s, &mut out);
            proof {
                let pre = keys@.subrange(0, i as int);
                let post = keys@.subrange(0, i + 1);
                assert(post.drop_last() =~= pre);
                assert(post.last() == s);
                assert forall|k: int| 0 <= k < out@.len() implies is_recorded_path(g, #[trigger] out@[k]@) && g.key(out@[k]@[0]) by {
                    if k < o0.len() {
                        assert(out@.subrange(0, o0.len() as int)[k] == out@[k]);
                    }
                }
                assert forall|a: int, v: usize|
                    0 <= a < i + 1 && v != keys@[a] && #[trigger] g.reachable(keys@[a], v) implies recorded_from(out@, keys@[a], v) by {
                    if a < i {
                        let k = choose|k: int| 0 <= k < o0.len() && (#[trigger] o0[k])@[0] == keys@[a] && o0[k]@.last() == v;
                        assert(out@.subrange(0, o0.len() as int)[k] == out@[k]);
                    } else {
                        assert(ends_recorded(out@, o0.len() as int, v));
                        let k = choose|k: int| o0.len() <= k < out@.len() && (#[trigger] out@[k])@.last() == v;
                        assert(out@[k]@[0] == s);
                    }
                }
            }
            i += 1;
        }
        proof {
            assert forall|s: usize, v: usize| g.key(s) && v != s && #[trigger] g.reachable(s, v) implies recorded_from(out@, s, v) by {
                assert(keys@.contains(s));
                let a = choose|a: int| 0 <= a < keys@.len() && keys@[a] == s;
                assert(g.reachable(keys@[a], v));
            }
            assert(keys@.subrange(0, keys@.len() as int) =~= keys@);
        }
        out
    }
}

} // verus!
