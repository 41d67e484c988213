use vstd::prelude::*;

verus! {

/// The mathematical picture of a graph: node `u` (an id below `succ.len()`)
/// has the out-neighbour sequence `succ[u]`, and `is_key[u]` says whether it
/// was ever recorded as an edge source (or added as a node on its own).
pub struct GraphModel {
    pub succ: Seq<Seq<usize>>,
    pub is_key: Seq<bool>,
}

impl GraphModel {
    /// Number of node ids the graph knows of.
    pub open spec fn n(self) -> nat {
        self.succ.len()
    }

    /// Every neighbour is a known id, and only keys have out-edges.
    pub open spec fn wf(self) -> bool {
        &&& self.is_key.len() == self.succ.len()
        &&& self.succ.len() <= usize::MAX
        &&& forall|u: int, i: int|
            0 <= u < self.succ.len() && 0 <= i < self.succ[u].len() ==> #[trigger] self.succ[u][i]
                < self.succ.len()
        &&& forall|u: int| 0 <= u < self.succ.len() && !self.is_key[u] ==> #[trigger] self.succ[u].len() == 0
    }

    pub open spec fn key(self, u: usize) -> bool {
        u < self.is_key.len() && self.is_key[u as int]
    }

    /// Out-degree: the length of the neighbour sequence, duplicates counted.
    pub open spec fn degree(self, u: usize) -> nat {
        if u < self.succ.len() {
            self.succ[u as int].len()
        } else {
            0
        }
    }

    /// A directed edge from `u` to `v`.
    pub open spec fn edge(self, u: usize, v: usize) -> bool {
        u < self.succ.len() && self.succ[u as int].contains(v)
    }

    /// `t` can be reached from `s` in at most `d` hops.
    pub open spec fn reach_within(self, s: usize, t: usize, d: nat) -> bool
        decreases d,
    {
        s == t || (d > 0 && exists|u: usize|
            #![trigger self.edge(u, t)]
            self.reach_within(s, u, (d - 1) as nat) && self.edge(u, t))
    }

    pub open spec fn reachable(self, s: usize, t: usize) -> bool {
        exists|d: nat| self.reach_within(s, t, d)
    }

    /// `d` is the least number of hops from `s` to `t`.
    pub open spec fn is_distance(self, s: usize, t: usize, d: nat) -> bool {
        self.reach_within(s, t, d) && forall|e: nat| e < d ==> !#[trigger] self.reach_within(s, t, e)
    }

    /// The hop distance from `s` to `t`; meaningful where `t` is reachable.
    pub open spec fn distance(self, s: usize, t: usize) -> nat {
        choose|d: nat| self.is_distance(s, t, d)
    }

    /// `p` is a walk along edges from `s` to `t`; it has `p.len() - 1` hops.
    pub open spec fn is_path(self, p: Seq<usize>, s: usize, t: usize) -> bool {
        &&& p.len() >= 1
        &&& p[0] == s
        &&& p.last() == t
        &&& forall|i: int| 0 <= i < p.len() - 1 ==> #[trigger] self.edge(p[i], p[i + 1])
    }

    /// The keys among the ids below `m`, in ascending order.
    pub open spec fn keys_below(self, m: nat) -> Seq<usize>
        decreases m,
    {
        if m == 0 {
            Seq::empty()
        } else if m - 1 < self.is_key.len() && self.is_key[m - 1] {
            self.keys_below((m - 1) as nat).push((m - 1) as usize)
        } else {
            self.keys_below((m - 1) as nat)
        }
    }

    /// The stable enumeration of the graph's keys: ascending ids.
    pub open spec fn keys(self) -> Seq<usize> {
        self.keys_below(self.is_key.len())
    }

    /// The model with room for at least `m` ids; new ids are not keys.
    pub open spec fn grown(self, m: nat) -> GraphModel {
        if m <= self.succ.len() {
            self
        } else {
            GraphModel {
                succ: self.succ + Seq::new((m - self.succ.len()) as nat, |i: int| Seq::<usize>::empty()),
                is_key: self.is_key + Seq::new((m - self.succ.len()) as nat, |i: int| false),
            }
        }
    }
}

/// The keys below `m` ascend strictly and are keys.
pub proof fn lemma_keys_below(g: GraphModel, m: nat)
    requires
        g.wf(),
        m <= g.is_key.len(),
    ensures
        forall|a: int, b: int| 0 <= a < b < g.keys_below(m).len() ==> g.keys_below(m)[a] < g.keys_below(m)[b],
        forall|a: int| 0 <= a < g.keys_below(m).len() ==> g.keys_below(m)[a] < m && g.key(#[trigger] g.keys_below(m)[a]),
        forall|u: usize| u < m && g.key(u) ==> #[trigger] g.keys_below(m).contains(u),
        g.keys_below(m).len() <= m,
    decreases m,
{
    if m > 0 {
        lemma_keys_below(g, (m - 1) as nat);
        let prev = g.keys_below((m - 1) as nat);
        if g.is_key[m - 1] {
            let cur = g.keys_below(m);
            assert(cur == prev.push((m - 1) as usize));
            assert forall|a: int| 0 <= a < cur.len() implies cur[a] < m && g.key(#[trigger] cur[a]) by {
                if a < prev.len() {
                    assert(cur[a] == prev[a]);
                }
            }
            assert forall|a: int, b: int| 0 <= a < b < cur.len() implies cur[a] < cur[b] by {
                assert(cur[a] == prev[a]);
                if b < prev.len() {
                    assert(cur[b] == prev[b]);
                }
            }
            assert forall|u: usize| u < m && g.key(u) implies #[trigger] g.keys_below(m).contains(u) by {
                if u < m - 1 {
                    assert(prev.contains(u));
                    let k = choose|k: int| 0 <= k < prev.len() && prev[k] == u;
                    assert(g.keys_below(m)[k] == u);
                } else {
                    assert(g.keys_below(m)[prev.len() as int] == u);
                }
            }
        } else {
            assert forall|u: usize| u < m && g.key(u) implies #[trigger] g.keys_below(m).contains(u) by {
                assert(prev.contains(u));
            }
        }
    }
}

/// A directed graph over dense node ids, stored as adjacency lists.
pub struct Graph {
    adj: Vec<Vec<usize>>,
    key: Vec<bool>,
}

impl View for Graph {
    type V = GraphModel;

    closed spec fn view(&self) -> GraphModel {
        GraphModel { succ: self.adj@.map_values(|v: Vec<usize>| v@), is_key: self.key@ }
    }
}

impl Graph {
    pub open spec fn wf(&self) -> bool {
        self@.wf()
    }

    /// An empty graph.
    pub fn new() -> (g: Graph)
        ensures
            g.wf(),
            g@.n() == 0,
    {
        let g = Graph { adj: Vec::new(), key: Vec::new() };
        assert(g@.succ =~= Seq::empty());
        g
    }

    /// The graph whose ids are the positions of `lists`, every one a key,
    /// with out-neighbours `lists[u]`.
    pub fn from_lists(lists: Vec<Vec<usize>>) -> (g: Graph)
        requires
            forall|u: int, j: int|
                0 <= u < lists@.len() && 0 <= j < lists@[u]@.len() ==> #[trigger] lists@[u]@[j] < lists@.len(),
        ensures
            g.wf(),
            g@.succ == lists@.map_values(|v: Vec<usize>| v@),
            g@.is_key == Seq::new(lists@.len(), |i: int| true),
    {
        let n = lists.len();
        let key: Vec<bool> = vec![true; n];
        let graph = Graph { adj: lists, key };
        assert(graph@.is_key =~= Seq::new(n as nat, |i: int| true));
        assert forall|u: int, i: int|
            0 <= u < graph@.succ.len() && 0 <= i < graph@.succ[u].len() implies #[trigger] graph@.succ[u][i]
                < graph@.succ.len() by {
            assert(graph@.succ[u] == graph.adj@[u]@);
        }
        graph
    }

    /// Number of node ids known to the graph.
    pub fn num_ids(&self) -> (r: usize)
        requires
            self.wf(),
        ensures
            r == self@.n(),
    {
        self.adj.len()
    }

    /// Whether `u` is a key, that is a node that the analyses enumerate.
    pub fn is_key(&self, u: usize) -> (r: bool)
        requires
            self.wf(),
        ensures
            r == self@.key(u),
    {
        u < self.key.len() && self.key[u]
    }

    /// The out-neighbours of `u` (empty for an unknown id).
    pub fn neighbors(&self, u: usize) -> (r: Vec<usize>)
        requires
            self.wf(),
        ensures
            u < self@.n() ==> r@ == self@.succ[u as int],
            u >= self@.n() ==> r@.len() == 0,
    {
        if u < self.adj.len() {
            let mut r: Vec<usize> = Vec::new();
            let row = &self.adj[u];
            let mut i: usize = 0;
            while i < row.len()
                invariant
                    i <= row@.len(),
                    r@ == row@.subrange(0, i as int),
                decreases row@.len() - i,
            {
                r.push(row[i]);
                i += 1;
                assert(r@ =~= row@.subrange(0, i as int));
            }
            assert(r@ =~= row@);
            r
        } else {
            Vec::new()
        }
    }

    /// The out-degree of `u`.
    pub fn out_degree(&self, u: usize) -> (r: usize)
        requires
            self.wf(),
        ensures
            r == self@.degree(u),
    {
        if u < self.adj.len() {
            self.adj[u].len()
        } else {
            0
        }
    }

    /// The `j`-th out-neighbour of `u`.
    pub fn neighbor(&self, u: usize, j: usize) -> (r: usize)
        requires
            self.wf(),
            u < self@.n(),
            j < self@.succ[u as int].len(),
        ensures
            r == self@.succ[u as int][j as int],
            r < self@.n(),
    {
        self.adj[u][j]
    }

    fn grow(&mut self, m: usize)
        requires
            old(self).wf(),
        ensures
            final(self)@ == old(self)@.grown(m as nat),
            final(self).wf(),
    {
        let ghost start = self@;
        while self.adj.len() < m
            invariant
                self.adj@.len() == self.key@.len(),
                start.succ.len() <= self.adj@.len(),
                self.adj@.len() <= m || self.adj@.len() == start.succ.len(),
                self@.succ =~= start.succ + Seq::new(
                    (self.adj@.len() - start.succ.len()) as nat,
                    |i: int| Seq::<usize>::empty(),
                ),
                self@.is_key =~= start.is_key + Seq::new(
                    (self.adj@.len() - start.succ.len()) as nat,
                    |i: int| false,
                ),
                start.wf(),
            decreases m - self.adj@.len(),
        {
            let ghost prev = self@;
            let row: Vec<usize> = Vec::new();
            assert(row@ =~= Seq::<usize>::empty());
            self.adj.push(row);
            self.key.push(false);
            assert(self@.succ =~= prev.succ.push(Seq::<usize>::empty()));
            assert(self@.succ =~= start.succ + Seq::new(
                (self.adj@.len() - start.succ.len()) as nat,
                |i: int| Seq::<usize>::empty(),
            ));
            assert(self@.is_key =~= start.is_key + Seq::new(
                (self.adj@.len() - start.succ.len()) as nat,
                |i: int| false,
            ));
        }
        proof {
            if m as nat <= start.succ.len() {
                assert(self@.succ =~= start.succ);
                assert(self@.is_key =~= start.is_key);
            }
        }
        assert(self@ == start.grown(m as nat));
        assert forall|u: int, i: int|
            0 <= u < self@.succ.len() && 0 <= i < self@.succ[u].len() implies #[trigger] self@.succ[u][i]
                < self@.succ.len() by {
            assert(u < start.succ.len());
            assert(self@.succ[u] == start.succ[u]);
        }
    }

    /// Makes `u` a key, with no new edge.
    pub fn add_node(&mut self, u: usize)
        requires
            old(self).wf(),
            u < usize::MAX,
        ensures
            final(self).wf(),
            final(self)@ == (GraphModel {
                succ: old(self)@.grown((u + 1) as nat).succ,
                is_key: old(self)@.grown((u + 1) as nat).is_key.update(u as int, true),
            }),
    {
        self.grow(u + 1);
        self.key.set(u, true);
        assert(self@.is_key.len() == self@.succ.len());
    }

    /// Records the directed edge `source -> target`; `source` becomes a key.
    pub fn add_edge(&mut self, source: usize, target: usize)
        requires
            old(self).wf(),
            source < usize::MAX,
            target < usize::MAX,
        ensures
            final(self).wf(),
            ({
                let m = if source < target { target + 1 } else { source + 1 };
                let g = old(self)@.grown(m as nat);
                final(self)@ == (GraphModel {
                    succ: g.succ.update(source as int, g.succ[source as int].push(target)),
                    is_key: g.is_key.update(source as int, true),
                })
            }),
    {
        let m = if source < target { target + 1 } else { source + 1 };
        self.grow(m);
        let ghost g = self@;
        self.key.set(source, true);
        self.adj[source].push(target);
        assert(self@.succ =~= g.succ.update(source as int, g.succ[source as int].push(target)));
        assert forall|u: int, i: int|
            0 <= u < self@.succ.len() && 0 <= i < self@.succ[u].len() implies #[trigger] self@.succ[u][i]
                < self@.succ.len() by {
            if u != source && i < g.succ[u].len() {
                assert(self@.succ[u][i] == g.succ[u][i]);
            }
        }
    }

    /// The keys in ascending id order: the enumeration every analysis uses.
    pub fn keys(&self) -> (r: Vec<usize>)
        requires
            self.wf(),
        ensures
            r@ == self@.keys(),
    {
        let mut r: Vec<usize> = Vec::new();
        let mut i: usize = 0;
        while i < self.key.len()
            invariant
                i <= self.key@.len(),
                r@ == self@.keys_below(i as nat),
                self.key@ == self@.is_key,
            decreases self.key@.len() - i,
        {
            if self.key[i] {
                r.push(i);
            }
            i += 1;
        }
        r
    }
}

} // verus!
