//! Ranking of scored candidates.
//!
//! A score is an order key: the bit pattern of a non-negative single-precision
//! distance, for which the unsigned order of the bits is the numeric order.
//! This module never does arithmetic on a score; it only compares keys.

use vstd::prelude::*;
use vstd::relations::*;
use vstd::seq_lib::*;

verus! {

/// One search result: an entry's identifier and its distance to the query.
#[derive(Clone, Copy, Debug, PartialEq, Eq, Structural)]
pub struct Hit {
    pub id: u64,
    pub score: u32,
}

/// The placeholder that fills the slots of a fixed-size result for which
/// there is no candidate: identifier zero and a distance of exactly zero.
pub open spec fn sentinel() -> Hit {
    Hit { id: 0, score: 0 }
}

/// `a` is ranked no later than `b`: ascending by score, ties by ascending id.
pub open spec fn ranks_before(a: Hit, b: Hit) -> bool {
    a.score < b.score || (a.score == b.score && a.id <= b.id)
}

/// `s` is in rank order.
pub open spec fn ranked(s: Seq<Hit>) -> bool {
    forall|i: int, j: int| 0 <= i < j < s.len() ==> ranks_before(s[i], s[j])
}

/// Where `h` goes in the ranked sequence `s`: behind every element that is
/// ranked no later than `h`.
pub open spec fn slot(s: Seq<Hit>, h: Hit) -> int
    decreases s.len(),
{
    if s.len() == 0 {
        0
    } else if ranks_before(s.last(), h) {
        s.len() as int
    } else {
        slot(s.drop_last(), h)
    }
}

/// The candidates in rank order.
pub open spec fn ranking(c: Seq<Hit>) -> Seq<Hit>
    decreases c.len(),
{
    if c.len() == 0 {
        Seq::empty()
    } else {
        let r = ranking(c.drop_last());
        r.insert(slot(r, c.last()), c.last())
    }
}

/// The `k` best candidates in rank order, or all of them if there are fewer.
pub open spec fn top_k_spec(c: Seq<Hit>, k: nat) -> Seq<Hit> {
    if k < c.len() {
        ranking(c).take(k as int)
    } else {
        ranking(c)
    }
}

/// The first `k` of `hits`, followed by sentinels up to length `k`.
pub open spec fn padded(hits: Seq<Hit>, k: nat) -> Seq<Hit> {
    Seq::new(
        k,
        |i: int|
            if i < hits.len() {
                hits[i]
            } else {
                sentinel()
            },
    )
}

/// The slot of `h` splits a ranked sequence into the elements ranked no later
/// than `h` and those ranked strictly after it.
pub proof fn lemma_slot(s: Seq<Hit>, h: Hit)
    requires
        ranked(s),
    ensures
        0 <= slot(s, h) <= s.len(),
        forall|j: int| 0 <= j < slot(s, h) ==> ranks_before(#[trigger] s[j], h),
        forall|j: int| slot(s, h) <= j < s.len() ==> !ranks_before(#[trigger] s[j], h),
    decreases s.len(),
{
    if s.len() == 0 {
    } else if ranks_before(s.last(), h) {
        assert forall|j: int| 0 <= j < s.len() implies ranks_before(#[trigger] s[j], h) by {
            if j < s.len() - 1 {
                assert(ranks_before(s[j], s[s.len() - 1]));
            }
        }
    } else {
        let t = s.drop_last();
        assert(ranked(t)) by {
            assert forall|i: int, j: int| 0 <= i < j < t.len() implies ranks_before(t[i], t[j]) by {
                assert(t[i] == s[i] && t[j] == s[j]);
            }
        }
        lemma_slot(t, h);
        assert forall|j: int| 0 <= j < slot(s, h) implies ranks_before(#[trigger] s[j], h) by {
            assert(s[j] == t[j]);
        }
        assert forall|j: int| slot(s, h) <= j < s.len() implies !ranks_before(#[trigger] s[j], h) by {
            if j < t.len() {
                assert(s[j] == t[j]);
            }
        }
    }
}

/// A position that splits a ranked sequence as the slot does is the slot.
pub proof fn lemma_slot_unique(s: Seq<Hit>, h: Hit, p: int)
    requires
        ranked(s),
        0 <= p <= s.len(),
        forall|j: int| 0 <= j < p ==> ranks_before(#[trigger] s[j], h),
        forall|j: int| p <= j < s.len() ==> !ranks_before(#[trigger] s[j], h),
    ensures
        slot(s, h) == p,
{
    lemma_slot(s, h);
    let q = slot(s, h);
    if q < p {
        assert(ranks_before(s[q], h));
    } else if p < q {
        assert(ranks_before(s[p], h));
    }
}

/// Putting `h` into its slot keeps a ranked sequence ranked.
pub proof fn lemma_insert_keeps_ranked(s: Seq<Hit>, h: Hit)
    requires
        ranked(s),
    ensures
        ranked(s.insert(slot(s, h), h)),
{
    lemma_slot(s, h);
    let p = slot(s, h);
    let t = s.insert(p, h);
    assert forall|i: int, j: int| 0 <= i < j < t.len() implies ranks_before(t[i], t[j]) by {
        if j < p {
            assert(t[i] == s[i] && t[j] == s[j]);
        } else if j == p {
            assert(t[i] == s[i] && t[j] == h);
        } else if i < p {
            assert(t[i] == s[i] && t[j] == s[j - 1]);
            if i < j - 1 {
            } else {
                assert(ranks_before(s[i], h));
                assert(!ranks_before(s[j - 1], h));
            }
        } else if i == p {
            assert(t[i] == h && t[j] == s[j - 1]);
            assert(!ranks_before(s[j - 1], h));
        } else {
            assert(t[i] == s[i - 1] && t[j] == s[j - 1]);
        }
    }
}

/// The ranking holds every candidate once and is in rank order.
pub proof fn lemma_ranking(c: Seq<Hit>)
    ensures
        ranking(c).len() == c.len(),
        ranked(ranking(c)),
        ranking(c).to_multiset() == c.to_multiset(),
    decreases c.len(),
{
    if c.len() == 0 {
        assert(c =~= ranking(c));
    } else {
        let d = c.drop_last();
        let r = ranking(d);
        lemma_ranking(d);
        lemma_slot(r, c.last());
        lemma_insert_keeps_ranked(r, c.last());
        to_multiset_insert(r, slot(r, c.last()), c.last());
        to_multiset_build(d, c.last());
        assert(d.push(c.last()) =~= c);
    }
}

/// The ranking does not depend on the order in which the candidates come:
/// it is the one ranked sequence that holds each of them once.
pub proof fn lemma_ranking_unique(c: Seq<Hit>, r: Seq<Hit>)
    requires
        ranked(r),
        r.to_multiset() == c.to_multiset(),
    ensures
        r == ranking(c),
{
    lemma_ranking(c);
    let leq = |a: Hit, b: Hit| ranks_before(a, b);
    assert(sorted_by(r, leq));
    assert(sorted_by(ranking(c), leq));
    assert(total_ordering(leq));
    lemma_sorted_unique(r, ranking(c), leq);
}

/// The best `n` after one more candidate are found among the best `n` before
/// it and the candidate itself.
pub proof fn lemma_insert_take(s: Seq<Hit>, h: Hit, n: int)
    requires
        ranked(s),
        0 <= n <= s.len(),
    ensures
        s.insert(slot(s, h), h).take(n) == s.take(n).insert(slot(s.take(n), h), h).take(n),
{
    lemma_slot(s, h);
    let p = slot(s, h);
    let t = s.take(n);
    assert(ranked(t));
    if p <= n {
        lemma_slot_unique(t, h, p);
        assert(s.insert(p, h).take(n) =~= t.insert(p, h).take(n));
    } else {
        lemma_slot_unique(t, h, n);
        assert(s.insert(p, h).take(n) =~= t.insert(n, h).take(n));
    }
}

/// Executable form of [`ranks_before`].
pub fn precedes(a: Hit, b: Hit) -> (r: bool)
    ensures
        r == ranks_before(a, b),
{
    a.score < b.score || (a.score == b.score && a.id <= b.id)
}

/// Whether a result slot holds the placeholder rather than a match.
pub fn is_sentinel(h: Hit) -> (r: bool)
    ensures
        r == (h == sentinel()),
{
    h.id == 0 && h.score == 0
}

/// The `k` best of `candidates`, best first; all of them if there are fewer
/// than `k`, none if `k` is zero.
///
/// One pass over the candidates, each placed into a buffer of at most `k`.
pub fn top_k(candidates: &Vec<Hit>, k: usize) -> (best: Vec<Hit>)
    ensures
        best@ == top_k_spec(candidates@, k as nat),
{
    let mut best: Vec<Hit> = Vec::new();
    let mut i: usize = 0;
    while i < candidates.len()
        invariant
            i <= candidates@.len(),
            best@ == top_k_spec(candidates@.take(i as int), k as nat),
        decreases candidates@.len() - i,
    {
        let h: Hit = candidates[i];
        let ghost done = candidates@.take(i as int);
        let ghost next = candidates@.take(i + 1);
        let ghost r = ranking(done);
        proof {
            assert(next.drop_last() =~= done);
            assert(next.last() == h);
            lemma_ranking(done);
            lemma_ranking(next);
            lemma_slot(r, h);
            assert(ranked(best@));
        }
        let full: bool = best.len() >= k;
        if full && (k == 0 || precedes(best[best.len() - 1], h)) {
            proof {
                lemma_insert_take(r, h, k as int);
                if k > 0 {
                    assert forall|j: int| 0 <= j < best@.len() implies ranks_before(
                        #[trigger] best@[j],
                        h,
                    ) by {
                        if j < best@.len() - 1 {
                            assert(ranks_before(best@[j], best@[best@.len() - 1]));
                        }
                    }
                }
                lemma_slot_unique(best@, h, k as int);
                assert(best@.insert(k as int, h).take(k as int) =~= best@);
            }
        } else {
            let mut p: usize = best.len();
            while p > 0 && !precedes(best[p - 1], h)
                invariant
                    p <= best@.len(),
                    forall|j: int| p <= j < best@.len() ==> !ranks_before(#[trigger] best@[j], h),
                decreases p,
            {
                p -= 1;
            }
            proof {
                assert forall|j: int| 0 <= j < p implies ranks_before(#[trigger] best@[j], h) by {
                    if j < p - 1 {
                        assert(ranks_before(best@[j], best@[p - 1]));
                    }
                }
                lemma_slot_unique(best@, h, p as int);
                if full {
                    lemma_insert_take(r, h, k as int);
                }
            }
            best.insert(p, h);
            if full {
                best.pop();
                proof {
                    let ghost b = r.take(k as int);
                    assert(b.insert(p as int, h).drop_last() =~= b.insert(p as int, h).take(k as int));
                }
            }
        }
        i += 1;
    }
    proof {
        assert(candidates@.take(i as int) =~= candidates@);
    }
    best
}

/// Cuts or fills `hits` to exactly `k` slots; the slots behind the last hit
/// hold the sentinel.
pub fn pad_to(hits: &Vec<Hit>, k: usize) -> (out: Vec<Hit>)
    ensures
        out@ == padded(hits@, k as nat),
{
    let mut out: Vec<Hit> = Vec::new();
    let mut i: usize = 0;
    while i < k
        invariant
            i <= k,
            out@ == padded(hits@, i as nat),
        decreases k - i,
    {
        let h: Hit = if i < hits.len() {
            hits[i]
        } else {
            Hit { id: 0, score: 0 }
        };
        out.push(h);
        proof {
            assert(out@ =~= padded(hits@, (i + 1) as nat));
        }
        i += 1;
    }
    out
}

/// The identifiers and the scores of `hits`, as two parallel vectors.
pub fn unzip(hits: &Vec<Hit>) -> (out: (Vec<u64>, Vec<u32>))
    ensures
        out.0@.len() == hits@.len(),
        out.1@.len() == hits@.len(),
        forall|i: int| 0 <= i < hits@.len() ==> hits@[i] == (Hit { id: out.0@[i], score: out.1@[i] }),
{
    let mut ids: Vec<u64> = Vec::new();
    let mut scores: Vec<u32> = Vec::new();
    let mut i: usize = 0;
    while i < hits.len()
        invariant
            i <= hits@.len(),
            ids@.len() == i,
            scores@.len() == i,
            forall|j: int| 0 <= j < i ==> hits@[j] == (Hit { id: ids@[j], score: scores@[j] }),
        decreases hits@.len() - i,
    {
        ids.push(hits[i].id);
        scores.push(hits[i].score);
        i += 1;
    }
    (ids, scores)
}

} // verus!
