//! Directed associative edges between entry identifiers.
//!
//! The graph is a set of pairs. An edge may name identifiers for which no
//! entry exists, and there is no way to take an edge out.

use vstd::prelude::*;
use vstd::seq_lib::*;

verus! {

/// `a` comes before `b`: by source, then by target.
pub open spec fn edge_lt(a: (u64, u64), b: (u64, u64)) -> bool {
    a.0 < b.0 || (a.0 == b.0 && a.1 < b.1)
}

/// Each edge comes before the next, so no edge occurs twice.
pub open spec fn edges_ascending(s: Seq<(u64, u64)>) -> bool {
    forall|i: int, j: int| 0 <= i < j < s.len() ==> edge_lt(s[i], s[j])
}

/// Each identifier is smaller than the next.
pub open spec fn ids_ascending(s: Seq<u64>) -> bool {
    forall|i: int, j: int| 0 <= i < j < s.len() ==> s[i] < s[j]
}

/// An ascending sequence of edges holds as many edges as its set.
pub proof fn lemma_ascending_len(s: Seq<(u64, u64)>)
    requires
        edges_ascending(s),
    ensures
        s.no_duplicates(),
        s.to_set().finite(),
        s.to_set().len() == s.len(),
{
    assert(s.no_duplicates()) by {
        assert forall|i: int, j: int| 0 <= i < s.len() && 0 <= j < s.len() && i != j implies s[i]
            != s[j] by {
            if i < j {
                assert(edge_lt(s[i], s[j]));
            } else {
                assert(edge_lt(s[j], s[i]));
            }
        }
    }
    s.unique_seq_to_set();
    seq_to_set_is_finite(s);
}

/// Putting a new element into a sequence adds it to the sequence's set.
pub proof fn lemma_insert_to_set(s: Seq<(u64, u64)>, p: int, e: (u64, u64))
    requires
        0 <= p <= s.len(),
    ensures
        s.insert(p, e).to_set() == s.to_set().insert(e),
{
    let t = s.insert(p, e);
    assert forall|x: (u64, u64)| t.to_set().contains(x) <==> s.to_set().insert(e).contains(
        x,
    ) by {
        if t.contains(x) {
            let i = choose|i: int| 0 <= i < t.len() && t[i] == x;
            if i < p {
                assert(s[i] == x);
            } else if i > p {
                assert(s[i - 1] == x);
            }
        }
        if s.contains(x) {
            let i = choose|i: int| 0 <= i < s.len() && s[i] == x;
            if i < p {
                assert(t[i] == x);
            } else {
                assert(t[i + 1] == x);
            }
        }
        if x == e {
            assert(t[p] == x);
        }
    }
    assert(t.to_set() =~= s.to_set().insert(e));
}

/// The set of directed edges of a database.
#[derive(Debug)]
pub struct LinkGraph {
    edges: Vec<(u64, u64)>,
}

impl View for LinkGraph {
    type V = Set<(u64, u64)>;

    open spec fn view(&self) -> Set<(u64, u64)> {
        self.ordered().to_set()
    }
}

impl LinkGraph {
    /// The edges in the order in which the graph keeps and writes them.
    pub closed spec fn ordered(&self) -> Seq<(u64, u64)> {
        self.edges@
    }

    /// The graph keeps its edges in ascending order.
    pub open spec fn wf(&self) -> bool {
        edges_ascending(self.ordered())
    }

    /// The targets of the edges that leave `id`.
    pub open spec fn targets(&self, id: u64) -> Set<u64> {
        Set::new(|to: u64| self@.contains((id, to)))
    }

    /// The sources of the edges that arrive at `id`.
    pub open spec fn sources(&self, id: u64) -> Set<u64> {
        Set::new(|from: u64| self@.contains((from, id)))
    }

    /// The graph without edges.
    pub fn new() -> (g: LinkGraph)
        ensures
            g.wf(),
            g@ == Set::<(u64, u64)>::empty(),
            g.ordered() == Seq::<(u64, u64)>::empty(),
    {
        let g = LinkGraph { edges: Vec::new() };
        proof {
            assert(g@ =~= Set::<(u64, u64)>::empty());
        }
        g
    }

    /// The graph of the given edges, which come in ascending order.
    pub fn from_ordered(edges: Vec<(u64, u64)>) -> (g: LinkGraph)
        requires
            edges_ascending(edges@),
        ensures
            g.wf(),
            g.ordered() == edges@,
    {
        LinkGraph { edges }
    }

    /// The edges in ascending order.
    pub fn edges(&self) -> (r: &Vec<(u64, u64)>)
        ensures
            r@ == self.ordered(),
    {
        &self.edges
    }

    /// The number of edges.
    pub fn len(&self) -> (n: usize)
        requires
            self.wf(),
        ensures
            n == self@.len(),
            self@.finite(),
    {
        proof {
            lemma_ascending_len(self.edges@);
        }
        self.edges.len()
    }

    /// The first position whose edge does not come before `(from, to)`.
    fn lower_bound(&self, from: u64, to: u64) -> (p: usize)
        requires
            self.wf(),
        ensures
            p <= self.ordered().len(),
            forall|j: int| 0 <= j < p ==> edge_lt(#[trigger] self.ordered()[j], (from, to)),
            forall|j: int|
                p <= j < self.ordered().len() ==> !edge_lt(#[trigger] self.ordered()[j], (from, to)),
    {
        let mut lo: usize = 0;
        let mut hi: usize = self.edges.len();
        while lo < hi
            invariant
                lo <= hi <= self.edges@.len(),
                edges_ascending(self.edges@),
                forall|j: int| 0 <= j < lo ==> edge_lt(#[trigger] self.edges@[j], (from, to)),
                forall|j: int|
                    hi <= j < self.edges@.len() ==> !edge_lt(#[trigger] self.edges@[j], (from, to)),
            decreases hi - lo,
        {
            let mid: usize = lo + (hi - lo) / 2;
            let e: (u64, u64) = self.edges[mid];
            if e.0 < from || (e.0 == from && e.1 < to) {
                proof {
                    assert forall|j: int| 0 <= j < mid + 1 implies edge_lt(
                        #[trigger] self.edges@[j],
                        (from, to),
                    ) by {
                        if j < mid {
                            assert(edge_lt(self.edges@[j], self.edges@[mid as int]));
                        }
                    }
                }
                lo = mid + 1;
            } else {
                proof {
                    assert forall|j: int| mid <= j < self.edges@.len() implies !edge_lt(
                        #[trigger] self.edges@[j],
                        (from, to),
                    ) by {
                        if mid < j {
                            assert(edge_lt(self.edges@[mid as int], self.edges@[j]));
                        }
                    }
                }
                hi = mid;
            }
        }
        lo
    }

    /// Whether the edge from `from` to `to` is in the graph.
    pub fn contains(&self, from: u64, to: u64) -> (r: bool)
        requires
            self.wf(),
        ensures
            r == self@.contains((from, to)),
    {
        let p: usize = self.lower_bound(from, to);
        let r: bool = p < self.edges.len() && self.edges[p].0 == from && self.edges[p].1 == to;
        proof {
            let s = self.edges@;
            if r {
                assert(s[p as int] == (from, to));
            } else if s.contains((from, to)) {
                let i = choose|i: int| 0 <= i < s.len() && s[i] == (from, to);
                if i < p {
                    assert(edge_lt(s[i], (from, to)));
                } else if i > p {
                    assert(edge_lt(s[p as int], s[i]));
                    assert(!edge_lt(s[p as int], (from, to)));
                }
            }
        }
        r
    }

    /// Puts the edge from `from` to `to` into the graph. Neither identifier
    /// has to belong to an entry, and an edge that is there already stays
    /// there once.
    pub fn link(&mut self, from: u64, to: u64)
        requires
            old(self).wf(),
        ensures
            final(self).wf(),
            final(self)@ == old(self)@.insert((from, to)),
    {
        let p: usize = self.lower_bound(from, to);
        if p < self.edges.len() && self.edges[p].0 == from && self.edges[p].1 == to {
            proof {
                assert(self.edges@[p as int] == (from, to));
                assert(self@ =~= self@.insert((from, to)));
            }
        } else {
            let ghost s = self.edges@;
            self.edges.insert(p, (from, to));
            proof {
                let t = self.edges@;
                assert(t == s.insert(p as int, (from, to)));
                lemma_insert_to_set(s, p as int, (from, to));
                assert forall|i: int, j: int| 0 <= i < j < t.len() implies edge_lt(t[i], t[j]) by {
                    if j < p {
                        assert(t[i] == s[i] && t[j] == s[j]);
                    } else if j == p {
                        assert(t[i] == s[i]);
                    } else if i < p {
                        assert(t[i] == s[i] && t[j] == s[j - 1]);
                        if i == j - 1 {
                            assert(edge_lt(s[i], (from, to)));
                            assert(!edge_lt(s[j - 1], (from, to)));
                        }
                    } else if i == p {
                        assert(t[j] == s[j - 1]);
                        assert(!edge_lt(s[j - 1], (from, to)));
                        if j - 1 == p {
                        } else {
                            assert(edge_lt(s[p as int], s[j - 1]));
                        }
                    } else {
                        assert(t[i] == s[i - 1] && t[j] == s[j - 1]);
                    }
                }
            }
        }
    }

    /// The identifiers that `id` links to, in ascending order.
    pub fn links_from(&self, id: u64) -> (out: Vec<u64>)
        requires
            self.wf(),
        ensures
            ids_ascending(out@),
            out@.to_set() == self.targets(id),
    {
        let start: usize = self.lower_bound(id, 0);
        let mut out: Vec<u64> = Vec::new();
        let mut i: usize = start;
        while i < self.edges.len() && self.edges[i].0 == id
            invariant
                start <= i <= self.edges@.len(),
                edges_ascending(self.edges@),
                out@.len() == i - start,
                forall|m: int| 0 <= m < out@.len() ==> self.edges@[start + m] == (id, #[trigger] out@[m]),
            decreases self.edges@.len() - i,
        {
            out.push(self.edges[i].1);
            i += 1;
        }
        proof {
            let s = self.edges@;
            assert forall|a: int, b: int| 0 <= a < b < out@.len() implies out@[a] < out@[b] by {
                assert(edge_lt(s[start + a], s[start + b]));
            }
            assert forall|t: u64| out@.to_set().contains(t) <==> self.targets(id).contains(t) by {
                if out@.contains(t) {
                    let m = choose|m: int| 0 <= m < out@.len() && out@[m] == t;
                    assert(s[start + m] == (id, t));
                }
                if s.contains((id, t)) {
                    let j = choose|j: int| 0 <= j < s.len() && s[j] == (id, t);
                    if j < start {
                        assert(edge_lt(s[j], (id, 0u64)));
                    } else if j >= i {
                        assert(edge_lt(s[i as int], s[j]) || i == j);
                    } else {
                        assert(s[start + (j - start)] == (id, out@[j - start]));
                    }
                }
            }
            assert(out@.to_set() =~= self.targets(id));
        }
        out
    }

    /// The identifiers that link to `id`, in ascending order.
    pub fn links_to(&self, id: u64) -> (out: Vec<u64>)
        requires
            self.wf(),
        ensures
            ids_ascending(out@),
            out@.to_set() == self.sources(id),
    {
        let mut out: Vec<u64> = Vec::new();
        let ghost mut at: Seq<int> = Seq::empty();
        let mut i: usize = 0;
        while i < self.edges.len()
            invariant
                i <= self.edges@.len(),
                edges_ascending(self.edges@),
                at.len() == out@.len(),
                forall|m: int|
                    0 <= m < out@.len() ==> 0 <= #[trigger] at[m] < i && self.edges@[at[m]] == (
                        out@[m],
                        id,
                    ),
                forall|a: int, b: int| 0 <= a < b < at.len() ==> at[a] < at[b],
                forall|j: int|
                    0 <= j < i && (#[trigger] self.edges@[j]).1 == id ==> out@.contains(
                        self.edges@[j].0,
                    ),
            decreases self.edges@.len() - i,
        {
            if self.edges[i].1 == id {
                let ghost before = out@;
                out.push(self.edges[i].0);
                proof {
                    at = at.push(i as int);
                    assert forall|j: int|
                        0 <= j < i + 1 && (#[trigger] self.edges@[j]).1 == id implies out@.contains(
                        self.edges@[j].0,
                    ) by {
                        if j < i {
                            let m = choose|m: int|
                                0 <= m < before.len() && before[m] == self.edges@[j].0;
                            assert(out@[m] == self.edges@[j].0);
                        } else {
                            assert(out@[out@.len() - 1] == self.edges@[j].0);
                        }
                    }
                }
            }
            i += 1;
        }
        proof {
            let s = self.edges@;
            assert forall|a: int, b: int| 0 <= a < b < out@.len() implies out@[a] < out@[b] by {
                assert(at[a] < at[b]);
                assert(edge_lt(s[at[a]], s[at[b]]));
            }
            assert forall|f: u64| out@.to_set().contains(f) <==> self.sources(id).contains(f) by {
                if out@.contains(f) {
                    let m = choose|m: int| 0 <= m < out@.len() && out@[m] == f;
                    assert(s[at[m]] == (f, id));
                }
                if s.contains((f, id)) {
                    let j = choose|j: int| 0 <= j < s.len() && s[j] == (f, id);
                    assert(s[j].1 == id);
                }
            }
            assert(out@.to_set() =~= self.sources(id));
        }
        out
    }
}

} // verus!
