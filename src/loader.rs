use vstd::prelude::*;

use crate::graph::{Graph, GraphModel};

verus! {

/// Unicode whitespace (the White_Space property), as separates the tokens
/// of an edge line.
pub open spec fn is_space(c: char) -> bool {
    let u = c as u32;
    (0x9 <= u <= 0xd) || u == 0x20 || u == 0x85 || u == 0xa0 || u == 0x1680 || (0x2000 <= u <= 0x200a)
        || u == 0x2028 || u == 0x2029 || u == 0x202f || u == 0x205f || u == 0x3000
}

/// Whether `c` is Unicode whitespace.
pub fn is_whitespace_char(c: char) -> (r: bool)
    ensures
        r == is_space(c),
{
    let u = c as u32;
    (0x9 <= u && u <= 0xd) || u == 0x20 || u == 0x85 || u == 0xa0 || u == 0x1680 || (0x2000 <= u && u <= 0x200a)
        || u == 0x2028 || u == 0x2029 || u == 0x202f || u == 0x205f || u == 0x3000
}

/// Left-to-right scan of `s` into whitespace-separated tokens; the flag
/// says whether the last token is still open.
pub open spec fn scan(s: Seq<char>) -> (Seq<Seq<char>>, bool)
    decreases s.len(),
{
    if s.len() == 0 {
        (Seq::empty(), false)
    } else {
        let (ts, open) = scan(s.drop_last());
        let c = s.last();
        if is_space(c) {
            (ts, false)
        } else if open {
            (ts.update(ts.len() - 1, ts.last().push(c)), true)
        } else {
            (ts.push(seq![c]), true)
        }
    }
}

/// The whitespace-separated tokens of `s`.
pub open spec fn tokens(s: Seq<char>) -> Seq<Seq<char>> {
    scan(s).0
}

/// The edge that a line describes: its first two tokens, when it has two.
pub open spec fn edge_of_line(line: Seq<char>) -> Option<(Seq<char>, Seq<char>)> {
    if tokens(line).len() >= 2 {
        Some((tokens(line)[0], tokens(line)[1]))
    } else {
        None
    }
}

proof fn lemma_scan_open(s: Seq<char>)
    ensures
        scan(s).1 ==> scan(s).0.len() > 0,
    decreases s.len(),
{
    if s.len() > 0 {
        lemma_scan_open(s.drop_last());
    }
}

fn copy_chars(v: &Vec<char>) -> (r: Vec<char>)
    ensures
        r@ == v@,
{
    let mut r: Vec<char> = Vec::new();
    let mut i: usize = 0;
    while i < v.len()
        invariant
            i <= v@.len(),
            r@ == v@.subrange(0, i as int),
        decreases v@.len() - i,
    {
        r.push(v[i]);
        i += 1;
        assert(r@ =~= v@.subrange(0, i as int));
    }
    assert(r@ =~= v@);
    r
}

/// The whitespace-separated tokens of `line`.
pub fn split_tokens(line: &Vec<char>) -> (r: Vec<Vec<char>>)
    ensures
        r@.map_values(|t: Vec<char>| t@) == tokens(line@),
{
    let mut ts: Vec<Vec<char>> = Vec::new();
    let mut open = false;
    let mut i: usize = 0;
    while i < line.len()
        invariant
            i <= line@.len(),
            (ts@.map_values(|t: Vec<char>| t@), open) == scan(line@.subrange(0, i as int)),
        decreases line@.len() - i,
    {
        let c = line[i];
        let ghost pre = line@.subrange(0, i as int);
        let ghost post = line@.subrange(0, i + 1);
        assert(post.drop_last() =~= pre);
        let ghost before = ts@.map_values(|t: Vec<char>| t@);
        if is_whitespace_char(c) {
            open = false;
        } else if open {
            proof {
                lemma_scan_open(pre);
            }
            let last = ts.len() - 1;
            ts[last].push(c);
            assert(ts@.map_values(|t: Vec<char>| t@) =~= before.update(before.len() - 1, before.last().push(c)));
        } else {
            let mut t: Vec<char> = Vec::new();
            t.push(c);
            assert(t@ =~= seq![c]);
            ts.push(t);
            assert(ts@.map_values(|t: Vec<char>| t@) =~= before.push(seq![c]));
            open = true;
        }
        i += 1;
    }
    assert(line@.subrange(0, line@.len() as int) =~= line@);
    ts
}

/// The edge named by one line of an edge list: its first two tokens, or
/// `None` for a line with fewer than two.
pub fn parse_edge_line(line: &Vec<char>) -> (r: Option<(Vec<char>, Vec<char>)>)
    ensures
        r is None <==> edge_of_line(line@) is None,
        r matches Some((a, b)) ==> edge_of_line(line@) == Some((a@, b@)),
{
    let ts = split_tokens(line);
    if ts.len() >= 2 {
        let a = copy_chars(&ts[0]);
        let b = copy_chars(&ts[1]);
        proof {
            assert(ts@.map_values(|t: Vec<char>| t@)[0] == ts@[0]@);
            assert(ts@.map_values(|t: Vec<char>| t@)[1] == ts@[1]@);
        }
        Some((a, b))
    } else {
        None
    }
}

fn chars_equal(a: &Vec<char>, b: &Vec<char>) -> (r: bool)
    ensures
        r == (a@ == b@),
{
    if a.len() != b.len() {
        return false;
    }
    let mut i: usize = 0;
    while i < a.len()
        invariant
            a@.len() == b@.len(),
            i <= a@.len(),
            forall|k: int| 0 <= k < i ==> a@[k] == b@[k],
        decreases a@.len() - i,
    {
        if a[i] != b[i] {
            return false;
        }
        i += 1;
    }
    assert(a@ =~= b@);
    true
}

/// Node labels and the dense ids they stand for: the label of id `u` is
/// `names[u]`, and no label occurs twice.
pub struct LabelTable {
    names: Vec<Vec<char>>,
}

impl LabelTable {
    pub closed spec fn labels(&self) -> Seq<Seq<char>> {
        self.names@.map_values(|t: Vec<char>| t@)
    }

    pub open spec fn wf(&self) -> bool {
        self.labels().no_duplicates()
    }

    pub fn new() -> (t: LabelTable)
        ensures
            t.wf(),
            t.labels().len() == 0,
    {
        let t = LabelTable { names: Vec::new() };
        assert(t.labels() =~= Seq::<Seq<char>>::empty());
        t
    }

    pub fn len(&self) -> (r: usize)
        ensures
            r == self.labels().len(),
    {
        self.names.len()
    }

    /// The label of id `u`.
    pub fn label(&self, u: usize) -> (r: Vec<char>)
        requires
            u < self.labels().len(),
        ensures
            r@ == self.labels()[u as int],
    {
        copy_chars(&self.names[u])
    }

    /// The id of `name`, added as the next id when it is new.
    pub fn intern(&mut self, name: &Vec<char>) -> (r: usize)
        requires
            old(self).wf(),
            old(self).labels().len() < usize::MAX,
        ensures
            final(self).wf(),
            r < final(self).labels().len(),
            final(self).labels()[r as int] == name@,
            old(self).labels().contains(name@) ==> final(self).labels() == old(self).labels(),
            !old(self).labels().contains(name@) ==> final(self).labels() == old(self).labels().push(name@),
    {
        let ghost before = self.labels();
        let mut i: usize = 0;
        while i < self.names.len()
            invariant
                self.labels() == before,
                before.no_duplicates(),
                i <= before.len(),
                forall|k: int| 0 <= k < i ==> before[k] != name@,
            decreases before.len() - i,
        {
            if chars_equal(&self.names[i], name) {
                assert(before[i as int] == self.names@[i as int]@);
                assert(before.contains(name@));
                return i;
            }
            i += 1;
        }
        let id = self.names.len();
        self.names.push(copy_chars(name));
        assert(self.labels() =~= before.push(name@));
        assert(self.labels().no_duplicates()) by {
            assert forall|a: int, b: int| 0 <= a < self.labels().len() && 0 <= b < self.labels().len() && a != b implies self.labels()[a] != self.labels()[b] by {
                if a < before.len() && b < before.len() {
                } else if a < before.len() {
                    assert(before[a] != name@);
                } else {
                    assert(before[b] != name@);
                }
            }
        }
        id
    }
}

/// Adds the edge named by one line of an edge list: both labels are given
/// ids in `labels` (new ones at the end), and the edge between those ids
/// is recorded. A line with fewer than two tokens changes nothing.
pub fn add_edge_line(graph: &mut Graph, labels: &mut LabelTable, line: &Vec<char>)
    requires
        old(graph).wf(),
        old(labels).wf(),
        old(labels).labels().len() + 2 < usize::MAX,
    ensures
        final(graph).wf(),
        final(labels).wf(),
        edge_of_line(line@) is None ==> *final(graph) == *old(graph) && *final(labels) == *old(labels),
        edge_of_line(line@) matches Some((a, b)) ==> {
            let g = old(graph)@;
            exists|s: usize, t: usize|
                #![trigger final(labels).labels()[s as int], final(labels).labels()[t as int]]
                s < final(labels).labels().len() && t < final(labels).labels().len()
                && final(labels).labels()[s as int] == a && final(labels).labels()[t as int] == b
                && final(graph)@ == added_edge(g, s, t)
        },
{
    match parse_edge_line(line) {
        None => {},
        Some((a, b)) => {
            let ghost g = graph@;
            let s = labels.intern(&a);
            let ghost l1 = labels.labels();
            let t = labels.intern(&b);
            assert(labels.labels()[s as int] == a@) by {
                assert(l1[s as int] == a@);
            }
            graph.add_edge(s, t);
            assert(graph@ == added_edge(g, s, t));
        },
    }
}

/// The model after recording the edge `s -> t` (as `Graph::add_edge` does).
pub open spec fn added_edge(g: GraphModel, s: usize, t: usize) -> GraphModel {
    let m = if s < t { t + 1 } else { s + 1 };
    let h = g.grown(m as nat);
    GraphModel {
        succ: h.succ.update(s as int, h.succ[s as int].push(t)),
        is_key: h.is_key.update(s as int, true),
    }
}

} // verus!
