use vstd::prelude::*;

use crate::graph::{lemma_keys_below, Graph, GraphModel};
use crate::agreement::{key_distance, lemma_matrix_agrees_with_distance};
use crate::path::UNREACHABLE;

verus! {

/// The starting matrix over the key enumeration `ks`: zero on the diagonal,
/// one for a direct edge, unreachable elsewhere.
pub open spec fn seed(g: GraphModel, ks: Seq<usize>, i: int, j: int) -> usize {
    if i == j {
        0
    } else if g.edge(ks[i], ks[j]) {
        1
    } else {
        UNREACHABLE
    }
}

/// The matrix entry `(i, j)` after relaxing through the first `k` keys:
/// a step through key `k - 1` replaces the entry when both legs are finite
/// and their sum is smaller.
pub open spec fn relaxed(g: GraphModel, ks: Seq<usize>, k: nat, i: int, j: int) -> usize
    decreases k,
{
    if k == 0 {
        seed(g, ks, i, j)
    } else {
        let a = relaxed(g, ks, (k - 1) as nat, i, j);
        let b = relaxed(g, ks, (k - 1) as nat, i, k - 1);
        let c = relaxed(g, ks, (k - 1) as nat, k - 1, j);
        if b != UNREACHABLE && c != UNREACHABLE && b + c < a {
            (b + c) as usize
        } else {
            a
        }
    }
}

/// The finished entry `(i, j)` of the graph's distance matrix.
pub open spec fn matrix_entry(g: GraphModel, i: int, j: int) -> usize {
    relaxed(g, g.keys(), g.keys().len(), i, j)
}

/// `rows` is the graph's finished distance matrix.
pub open spec fn is_distance_matrix(g: GraphModel, rows: Seq<Vec<usize>>) -> bool {
    &&& rows.len() == g.keys().len()
    &&& forall|i: int| 0 <= i < rows.len() ==> (#[trigger] rows[i])@.len() == rows.len()
    &&& forall|i: int, j: int| 0 <= i < rows.len() && 0 <= j < rows.len() ==> rows[i]@[j] == matrix_entry(g, i, j)
}

proof fn lemma_relaxed_diagonal(g: GraphModel, ks: Seq<usize>, k: nat, i: int)
    ensures
        relaxed(g, ks, k, i, i) == 0,
    decreases k,
{
    if k > 0 {
        lemma_relaxed_diagonal(g, ks, (k - 1) as nat, i);
    }
}

/// Relaxing through key `k` leaves the row and the column of `k` as they were.
proof fn lemma_relaxed_pivot(g: GraphModel, ks: Seq<usize>, k: nat, i: int, j: int)
    ensures
        relaxed(g, ks, k + 1, i, k as int) == relaxed(g, ks, k, i, k as int),
        relaxed(g, ks, k + 1, k as int, j) == relaxed(g, ks, k, k as int, j),
{
    lemma_relaxed_diagonal(g, ks, k, k as int);
}

/// The position of `w` in `ks`, if any.
fn key_index(ks: &Vec<usize>, w: usize) -> (r: Option<usize>)
    ensures
        r matches Some(j) ==> j < ks@.len() && ks@[j as int] == w,
        r is None ==> !ks@.contains(w),
{
    let mut j: usize = 0;
    while j < ks.len()
        invariant
            j <= ks@.len(),
            forall|a: int| 0 <= a < j ==> ks@[a] != w,
        decreases ks@.len() - j,
    {
        if ks[j] == w {
            return Some(j);
        }
        j += 1;
    }
    None
}

/// Row `i` of the starting matrix.
fn seed_row(graph: &Graph, ks: &Vec<usize>, i: usize) -> (row: Vec<usize>)
    requires
        graph.wf(),
        ks@ == graph@.keys(),
        i < ks@.len(),
    ensures
        row@.len() == ks@.len(),
        forall|j: int| 0 <= j < ks@.len() ==> row@[j] == seed(graph@, ks@, i as int, j),
{
    let ghost g = graph@;
    proof {
        lemma_keys_below(g, g.is_key.len());
    }
    let m = ks.len();
    let mut row: Vec<usize> = vec![UNREACHABLE; m];
    row.set(i, 0);
    let u = ks[i];
    let deg = graph.out_degree(u);
    let mut p: usize = 0;
    while p < deg
        invariant
            g == graph@,
            g.wf(),
            ks@ == g.keys(),
            m == ks@.len(),
            i < m,
            u == ks@[i as int],
            u < g.n(),
            deg == g.succ[u as int].len(),
            p <= deg,
            row@.len() == m,
            forall|a: int, b: int| 0 <= a < b < ks@.len() ==> ks@[a] < ks@[b],
            forall|j: int|
                0 <= j < m ==> #[trigger] row@[j] == if j == i {
                    0
                } else if g.succ[u as int].subrange(0, p as int).contains(ks@[j]) {
                    1
                } else {
                    UNREACHABLE
                },
        decreases deg - p,
    {
        let w = graph.neighbor(u, p);
        let ghost r0 = row@;
        match key_index(ks, w) {
            Some(j) => {
                if j != i {
                    row.set(j, 1);
                }
            },
            None => {},
        }
        proof {
            let pre = g.succ[u as int].subrange(0, p as int);
            let post = g.succ[u as int].subrange(0, p + 1);
            assert(post =~= pre.push(w));
            assert forall|j: int| 0 <= j < m implies #[trigger] row@[j] == if j == i {
                0
            } else if post.contains(ks@[j]) {
                1
            } else {
                UNREACHABLE
            } by {
                if ks@[j] == w {
                    assert(post[p as int] == w);
                } else if post.contains(ks@[j]) {
                    let q = choose|q: int| 0 <= q < post.len() && post[q] == ks@[j];
                    assert(pre[q] == ks@[j]);
                } else if pre.contains(ks@[j]) {
                    let q = choose|q: int| 0 <= q < pre.len() && pre[q] == ks@[j];
                    assert(post[q] == ks@[j]);
                }
                if ks@[j] == w {
                    assert(ks@.contains(w));
                }
            }
        }
        p += 1;
    }
    proof {
        assert(g.succ[u as int].subrange(0, deg as int) =~= g.succ[u as int]);
        assert(u < g.succ.len());
    }
    row
}

/// The all-pairs distance matrix over the key enumeration, by
/// Floyd-Warshall relaxation: entry `(i, j)` is the distance from the
/// `i`-th key to the `j`-th, or `UNREACHABLE` when no path leads there.
pub fn build_matrix(graph: &Graph, ks: &Vec<usize>) -> (rows: Vec<Vec<usize>>)
    requires
        graph.wf(),
        ks@ == graph@.keys(),
    ensures
        is_distance_matrix(graph@, rows@),
        forall|i: int, j: int|
            #![trigger rows@[i]@[j]]
            0 <= i < rows@.len() && 0 <= j < rows@.len() ==> rows@[i]@[j] == key_distance(graph@, i, j),
{
    let ghost g = graph@;
    let m = ks.len();
    let mut rows: Vec<Vec<usize>> = Vec::new();
    let mut i: usize = 0;
    while i < m
        invariant
            g == graph@,
            g.wf(),
            ks@ == g.keys(),
            m == ks@.len(),
            i <= m,
            rows@.len() == i,
            forall|a: int| 0 <= a < i ==> (#[trigger] rows@[a])@.len() == m,
            forall|a: int, j: int| 0 <= a < i && 0 <= j < m ==> rows@[a]@[j] == relaxed(g, ks@, 0, a, j),
        decreases m - i,
    {
        let row = seed_row(graph, ks, i);
        rows.push(row);
        i += 1;
    }
    let mut k: usize = 0;
    while k < m
        invariant
            g == graph@,
            ks@ == g.keys(),
            m == ks@.len(),
            k <= m,
            rows@.len() == m,
            forall|a: int| 0 <= a < m ==> (#[trigger] rows@[a])@.len() == m,
            forall|a: int, j: int| 0 <= a < m && 0 <= j < m ==> rows@[a]@[j] == relaxed(g, ks@, k as nat, a, j),
        decreases m - k,
    {
        let mut i: usize = 0;
        while i < m
            invariant
                g == graph@,
                ks@ == g.keys(),
                m == ks@.len(),
                k < m,
                i <= m,
                rows@.len() == m,
                forall|a: int| 0 <= a < m ==> (#[trigger] rows@[a])@.len() == m,
                forall|a: int, j: int|
                    0 <= a < m && 0 <= j < m ==> rows@[a]@[j] == relaxed(g, ks@, if a < i { (k + 1) as nat } else { k as nat }, a, j),
            decreases m - i,
        {
            let mut j: usize = 0;
            while j < m
                invariant
                    g == graph@,
                    ks@ == g.keys(),
                    m == ks@.len(),
                    k < m,
                    i < m,
                    j <= m,
                    rows@.len() == m,
                    forall|a: int| 0 <= a < m ==> (#[trigger] rows@[a])@.len() == m,
                    forall|a: int, b: int|
                        0 <= a < m && 0 <= b < m ==> rows@[a]@[b] == relaxed(
                            g,
                            ks@,
                            if a < i || (a == i && b < j) { (k + 1) as nat } else { k as nat },
                            a,
                            b,
                        ),
                decreases m - j,
            {
                proof {
                    lemma_relaxed_pivot(g, ks@, k as nat, i as int, j as int);
                }
                let b = rows[i][k];
                let c = rows[k][j];
                let a = rows[i][j];
                if b != UNREACHABLE && c != UNREACHABLE && b < a && c < a - b {
                    rows[i].set(j, b + c);
                }
                proof {
                    assert forall|x: int, y: int| 0 <= x < m && 0 <= y < m implies rows@[x]@[y] == relaxed(
                        g,
                        ks@,
                        if x < i || (x == i && y < j + 1) { (k + 1) as nat } else { k as nat },
                        x,
                        y,
                    ) by {
                        if x == i && y == j {
                            assert(b == relaxed(g, ks@, k as nat, i as int, k as int));
                            assert(c == relaxed(g, ks@, k as nat, k as int, j as int));
                        }
                    }
                }
                j += 1;
            }
            i += 1;
        }
        k += 1;
    }
    assert forall|i: int, j: int|
        #![trigger rows@[i]@[j]]
        0 <= i < rows@.len() && 0 <= j < rows@.len() implies rows@[i]@[j] == key_distance(g, i, j) by {
        lemma_matrix_agrees_with_distance(g, i, j);
    }
    rows
}

} // verus!
