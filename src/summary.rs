use vstd::prelude::*;
use vstd::relations::{sorted_by, total_ordering};

use crate::graph::{Graph, GraphModel};
use crate::agreement::{key_distance, lemma_matrix_agrees_with_distance};
use crate::matrix::{build_matrix, is_distance_matrix, matrix_entry};
use crate::path::UNREACHABLE;

verus! {

/// The distances between the graph's keys, as rows of a matrix in key
/// order (`UNREACHABLE` where no path exists).
pub open spec fn matrix_rows(g: GraphModel) -> Seq<Seq<usize>> {
    Seq::new(g.keys().len(), |i: int| Seq::new(g.keys().len(), |j: int| key_distance(g, i, j)))
}

/// Every entry of the finished matrix is the distance between keys, and a
/// finite one is below the number of keys.
proof fn lemma_entry_is_distance(g: GraphModel, i: int, j: int)
    requires
        g.wf(),
        0 <= i < g.keys().len(),
        0 <= j < g.keys().len(),
    ensures
        matrix_entry(g, i, j) == key_distance(g, i, j),
        key_distance(g, i, j) != UNREACHABLE ==> key_distance(g, i, j) < g.keys().len(),
{
    lemma_matrix_agrees_with_distance(g, i, j);
    crate::graph::lemma_keys_below(g, g.is_key.len());
    if g.reachable(g.keys()[i], g.keys()[j]) {
        assert(g.distance(g.keys()[i], g.keys()[j]) < g.keys().len());
        assert(key_distance(g, i, j) == g.distance(g.keys()[i], g.keys()[j]));
    }
}

/// The finite entries of `row` (row `i` of a matrix) off the diagonal, in order.
pub open spec fn finite_in_row(row: Seq<usize>, i: int) -> Seq<usize>
    decreases row.len(),
{
    if row.len() == 0 {
        Seq::empty()
    } else if row.len() - 1 != i && row.last() != UNREACHABLE {
        finite_in_row(row.drop_last(), i).push(row.last())
    } else {
        finite_in_row(row.drop_last(), i)
    }
}

/// The finite off-diagonal entries of a matrix, row by row.
pub open spec fn finite_entries(rows: Seq<Seq<usize>>) -> Seq<usize>
    decreases rows.len(),
{
    if rows.len() == 0 {
        Seq::empty()
    } else {
        finite_entries(rows.drop_last()) + finite_in_row(rows.last(), rows.len() - 1)
    }
}

pub open spec fn ascending(a: usize, b: usize) -> bool {
    a <= b
}

/// `s` in ascending order.
pub open spec fn sorted_values(s: Seq<usize>) -> Seq<usize> {
    s.sort_by(|a: usize, b: usize| ascending(a, b))
}

/// The two central elements of a sorted sequence (the same one twice for an
/// odd length); the median is their mean.
pub open spec fn middle_pair(s: Seq<usize>) -> Option<(usize, usize)> {
    if s.len() == 0 {
        None
    } else if s.len() % 2 == 0 {
        Some((s[s.len() / 2 - 1], s[(s.len() / 2) as int]))
    } else {
        Some((s[(s.len() / 2) as int], s[(s.len() / 2) as int]))
    }
}

/// Relies on `slice::sort_unstable`: the elements end up in ascending order,
/// the same elements as before.
#[verifier::external_body]
fn sort_ascending(v: &mut Vec<usize>)
    ensures
        final(v)@.to_multiset() == old(v)@.to_multiset(),
        forall|a: int, b: int| 0 <= a < b < final(v)@.len() ==> final(v)@[a] <= final(v)@[b],
{
    v.sort_unstable();
}

proof fn lemma_ascending_total()
    ensures
        total_ordering(|a: usize, b: usize| ascending(a, b)),
{
}

/// The two central values of `v` once sorted; `None` for an empty `v`.
pub fn median_of(v: Vec<usize>) -> (r: Option<(usize, usize)>)
    ensures
        r == middle_pair(sorted_values(v@)),
{
    let ghost orig = v@;
    let mut v = v;
    sort_ascending(&mut v);
    proof {
        let leq = |a: usize, b: usize| ascending(a, b);
        orig.lemma_sort_by_ensures(leq);
        lemma_ascending_total();
        assert(sorted_by(v@, leq));
        vstd::seq_lib::lemma_sorted_unique(v@, orig.sort_by(leq), leq);
    }
    let n = v.len();
    if n == 0 {
        None
    } else if n % 2 == 0 {
        Some((v[n / 2 - 1], v[n / 2]))
    } else {
        Some((v[n / 2], v[n / 2]))
    }
}

/// The finite off-diagonal entries of `rows`, row by row.
fn collect_finite(rows: &Vec<Vec<usize>>) -> (out: Vec<usize>)
    requires
        forall|i: int| 0 <= i < rows@.len() ==> (#[trigger] rows@[i])@.len() == rows@.len(),
    ensures
        out@ == finite_entries(rows@.map_values(|r: Vec<usize>| r@)),
{
    let ghost all = rows@.map_values(|r: Vec<usize>| r@);
    let m = rows.len();
    let mut out: Vec<usize> = Vec::new();
    let mut i: usize = 0;
    while i < m
        invariant
            m == rows@.len(),
            all == rows@.map_values(|r: Vec<usize>| r@),
            forall|a: int| 0 <= a < m ==> (#[trigger] rows@[a])@.len() == m,
            i <= m,
            out@ == finite_entries(all.subrange(0, i as int)),
        decreases m - i,
    {
        let ghost base = out@;
        let mut j: usize = 0;
        while j < m
            invariant
                m == rows@.len(),
                i < m,
                rows@[i as int]@.len() == m,
                j <= m,
                out@ == base + finite_in_row(rows@[i as int]@.subrange(0, j as int), i as int),
            decreases m - j,
        {
            let x = rows[i][j];
            let ghost pre = rows@[i as int]@.subrange(0, j as int);
            let ghost post = rows@[i as int]@.subrange(0, j + 1);
            assert(post.drop_last() =~= pre);
            if i != j && x != UNREACHABLE {
                out.push(x);
                assert(out@ =~= base + finite_in_row(post, i as int));
            }
            j += 1;
        }
        proof {
            assert(rows@[i as int]@.subrange(0, m as int) =~= rows@[i as int]@);
            assert(all.subrange(0, i + 1).drop_last() =~= all.subrange(0, i as int));
            assert(all.subrange(0, i + 1).last() == rows@[i as int]@);
        }
        i += 1;
    }
    assert(all.subrange(0, m as int) =~= all);
    out
}

/// Largest finite distance between two keys (0 when there is none),
/// read off the all-pairs matrix; never `UNREACHABLE`.
pub fn max_distance(graph: &Graph) -> (r: usize)
    requires
        graph.wf(),
    ensures
        r != UNREACHABLE,
        r == 0 || r < graph@.keys().len(),
        forall|i: int, j: int|
            0 <= i < graph@.keys().len() && 0 <= j < graph@.keys().len() && #[trigger] key_distance(graph@, i, j)
                != UNREACHABLE ==> key_distance(graph@, i, j) <= r,
        r == 0 || exists|i: int, j: int|
            0 <= i < graph@.keys().len() && 0 <= j < graph@.keys().len() && #[trigger] key_distance(graph@, i, j) == r,
{
    let ghost g = graph@;
    let ks = graph.keys();
    let rows = build_matrix(graph, &ks);
    let m = ks.len();
    let mut best: usize = 0;
    let mut i: usize = 0;
    while i < m
        invariant
            g == graph@,
            m == g.keys().len(),
            is_distance_matrix(g, rows@),
            g.wf(),
            i <= m,
            best != UNREACHABLE,
            best == 0 || best < m,
            forall|a: int, b: int| 0 <= a < i && 0 <= b < m && #[trigger] key_distance(g, a, b) != UNREACHABLE ==> key_distance(g, a, b) <= best,
            best == 0 || exists|a: int, b: int| 0 <= a < m && 0 <= b < m && #[trigger] key_distance(g, a, b) == best,
        decreases m - i,
    {
        let mut j: usize = 0;
        while j < m
            invariant
                g == graph@,
                m == g.keys().len(),
                is_distance_matrix(g, rows@),
                g.wf(),
                i < m,
                j <= m,
                best != UNREACHABLE,
                best == 0 || best < m,
                forall|a: int, b: int|
                    0 <= a < m && 0 <= b < m && (a < i || (a == i && b < j)) && #[trigger] key_distance(g, a, b) != UNREACHABLE
                        ==> key_distance(g, a, b) <= best,
                best == 0 || exists|a: int, b: int| 0 <= a < m && 0 <= b < m && #[trigger] key_distance(g, a, b) == best,
            decreases m - j,
        {
            let x = rows[i][j];
            assert(x == matrix_entry(g, i as int, j as int));
            proof {
                lemma_entry_is_distance(g, i as int, j as int);
            }
            if x != UNREACHABLE && x > best {
                best = x;
                assert(key_distance(g, i as int, j as int) == best);
            }
            j += 1;
        }
        i += 1;
    }
    best
}

/// The median of the finite distances between distinct keys, as the two
/// central values of their ascending order; `None` when there is none.
pub fn median_distance(graph: &Graph) -> (r: Option<(usize, usize)>)
    requires
        graph.wf(),
    ensures
        r == middle_pair(sorted_values(finite_entries(matrix_rows(graph@)))),
{
    let ks = graph.keys();
    let rows = build_matrix(graph, &ks);
    let all = collect_finite(&rows);
    proof {
        let g = graph@;
        let m = g.keys().len();
        assert forall|i: int| 0 <= i < m implies rows@[i]@ =~= #[trigger] matrix_rows(g)[i] by {
            assert forall|j: int| 0 <= j < m implies rows@[i]@[j] == matrix_rows(g)[i][j] by {
                lemma_entry_is_distance(g, i, j);
            }
        }
        assert(rows@.map_values(|r: Vec<usize>| r@) =~= matrix_rows(g));
    }
    median_of(all)
}

} // verus!
