//! Nearest-neighbour search: scope by modality, filter, score, rank, pad.
//!
//! The distance between two embeddings is computed by the caller's metric,
//! which gets the query and one stored embedding and returns the order key of
//! their distance. Everything else happens here: which entries are scored,
//! how they are ranked, and what the fixed-size result holds.

use crate::entry::Entry;
use crate::error::DbError;
use crate::filter::matches_spec;
use crate::scorer::{pad_to, padded, top_k, top_k_spec, unzip, Hit};
use crate::store::{Partition, DB};
use crate::text::opt_str_view;
use vstd::prelude::*;

verus! {

/// The entries that pass the filters of a search of the modality `m`.
pub open spec fn candidate_pred(
    type_filter: Option<u8>,
    source_filter: Option<Seq<char>>,
    m: Seq<char>,
) -> spec_fn(Entry) -> bool {
    |e: Entry| matches_spec(e@, type_filter, source_filter, m)
}

/// Partition `p` is the one of the modality `m`.
pub open spec fn has_modality(parts: Seq<Partition>, p: int, m: Seq<char>) -> bool {
    0 <= p < parts.len() && parts[p].modality@ == m
}

/// The candidates of a search: the entries of the searched modality that
/// meet the filters, in ascending order of their identifiers.
pub open spec fn candidates_of(
    parts: Seq<Partition>,
    type_filter: Option<u8>,
    source_filter: Option<Seq<char>>,
    m: Seq<char>,
) -> Seq<Entry> {
    if exists|p: int| has_modality(parts, p, m) {
        let p = choose|p: int| has_modality(parts, p, m);
        parts[p].entries@.filter(candidate_pred(type_filter, source_filter, m))
    } else {
        Seq::empty()
    }
}

/// Each candidate with its score.
pub open spec fn scored(cands: Seq<Entry>, scores: Seq<u32>) -> Seq<Hit> {
    Seq::new(cands.len(), |i: int| Hit { id: cands[i].id, score: scores[i] })
}

/// The hits that two parallel sequences of identifiers and scores stand for.
pub open spec fn hits_of(ids: Seq<u64>, scores: Seq<u32>) -> Seq<Hit> {
    Seq::new(ids.len(), |i: int| Hit { id: ids[i], score: scores[i] })
}

/// `scores` holds, for each candidate, a value that the metric returned for
/// the query and that candidate's embedding.
pub open spec fn scores_by<F: Fn(&Vec<u32>, &Vec<u32>) -> u32>(
    metric: F,
    query: &Vec<u32>,
    cands: Seq<Entry>,
    scores: Seq<u32>,
) -> bool {
    &&& scores.len() == cands.len()
    &&& forall|i: int|
        0 <= i < cands.len() ==> metric.ensures((query, &cands[i].embedding), #[trigger] scores[i])
}

/// `(ids, dists)` is what a search for the `k` nearest of `cands` returns:
/// exactly `k` slots, the best candidates first in rank order under the
/// scores that the metric gave them, the remaining slots sentinels.
pub open spec fn is_search_result<F: Fn(&Vec<u32>, &Vec<u32>) -> u32>(
    metric: F,
    query: &Vec<u32>,
    cands: Seq<Entry>,
    k: nat,
    ids: Seq<u64>,
    dists: Seq<u32>,
) -> bool {
    &&& ids.len() == k
    &&& dists.len() == k
    &&& exists|scores: Seq<u32>|
        #![trigger scored(cands, scores)]
        scores_by(metric, query, cands, scores) && hits_of(ids, dists) == padded(
            top_k_spec(scored(cands, scores), k),
            k,
        )
}

impl DB {
    /// The candidates of a search of this database.
    pub open spec fn candidates(
        &self,
        type_filter: Option<u8>,
        source_filter: Option<Seq<char>>,
        modality: Seq<char>,
    ) -> Seq<Entry> {
        candidates_of(self.parts(), type_filter, source_filter, modality)
    }

    /// The `k` entries of `modality` nearest to `query` among those that meet
    /// the filters, as parallel vectors of identifiers and distances, best
    /// first, ties in ascending order of the identifier. Both vectors have
    /// length `k`; slots for which there is no candidate hold the sentinel,
    /// identifier 0 with distance 0.
    ///
    /// Fails if the query is not of the database's dimension.
    pub fn search_with_filter<F: Fn(&Vec<u32>, &Vec<u32>) -> u32>(
        &self,
        query: &Vec<u32>,
        k: usize,
        type_filter: Option<u8>,
        source_filter: Option<&str>,
        modality: &str,
        metric: F,
    ) -> (r: Result<(Vec<u64>, Vec<u32>), DbError>)
        requires
            self.wf(),
            forall|a: &Vec<u32>, b: &Vec<u32>| a@.len() == b@.len() ==> metric.requires((a, b)),
        ensures
            match r {
                Ok(out) => {
                    &&& query@.len() == self@.dim
                    &&& is_search_result(
                        metric,
                        query,
                        self.candidates(type_filter, opt_str_view(source_filter), modality@),
                        k as nat,
                        out.0@,
                        out.1@,
                    )
                },
                Err(e) => e == DbError::DimensionMismatch && query@.len() != self@.dim,
            },
    {
        if query.len() != self.dim() {
            return Err(DbError::DimensionMismatch);
        }
        let ghost m = modality@;
        let ghost pred = candidate_pred(type_filter, opt_str_view(source_filter), m);
        let ghost cands = self.candidates(type_filter, opt_str_view(source_filter), m);
        let ghost mut scores: Seq<u32> = Seq::empty();
        let mut found: Vec<Hit> = Vec::new();
        match self.find_partition(modality) {
            None => {
                proof {
                    assert(cands =~= Seq::<Entry>::empty());
                }
            },
            Some(p) => {
                let entries = &self.partitions()[p].entries;
                proof {
                    let l = self.layout();
                    assert(has_modality(self.parts(), p as int, m));
                    let q = choose|q: int| has_modality(self.parts(), q, m);
                    if q < p {
                        assert(l.partitions[q].modality != l.partitions[p as int].modality);
                    } else if p < q {
                        assert(l.partitions[p as int].modality != l.partitions[q].modality);
                    }
                    assert(cands == entries@.filter(pred));
                    assert(crate::store::partition_wf(l.partitions[p as int], l.dim));
                    assert forall|x: int| 0 <= x < entries@.len() implies (
                    #[trigger] entries@[x]).embedding@.len() == query@.len() by {
                        assert(l.partitions[p as int].entries[x].embedding.len() == l.dim);
                    }
                    assert(entries@.take(0) =~= Seq::<Entry>::empty());
                    assert(Seq::<Entry>::empty().filter(pred) =~= Seq::<Entry>::empty()) by {
                        reveal(Seq::filter);
                    }
                }
                let mut i: usize = 0;
                while i < entries.len()
                    invariant
                        i <= entries@.len(),
                        pred == candidate_pred(type_filter, opt_str_view(source_filter), m),
                        m == modality@,
                        forall|a: &Vec<u32>, b: &Vec<u32>|
                            a@.len() == b@.len() ==> metric.requires((a, b)),
                        forall|x: int|
                            0 <= x < entries@.len() ==> (#[trigger] entries@[x]).embedding@.len()
                                == query@.len(),
                        scores_by(metric, query, entries@.take(i as int).filter(pred), scores),
                        found@ == scored(entries@.take(i as int).filter(pred), scores),
                    decreases entries@.len() - i,
                {
                    let e: &Entry = &entries[i];
                    let ghost before = entries@.take(i as int).filter(pred);
                    proof {
                        assert(entries@.take(i + 1) =~= entries@.take(i as int).push(*e));
                        entries@.take(i as int).lemma_filter_push(*e, pred);
                    }
                    if crate::filter::matches(e, type_filter, source_filter, modality) {
                        let s: u32 = metric(query, &e.embedding);
                        found.push(Hit { id: e.id, score: s });
                        proof {
                            let ghost old_scores = scores;
                            scores = scores.push(s);
                            let after = entries@.take(i + 1).filter(pred);
                            assert(after == before.push(*e));
                            assert forall|j: int| 0 <= j < after.len() implies metric.ensures(
                                (query, &after[j].embedding),
                                #[trigger] scores[j],
                            ) by {
                                if j < before.len() {
                                    assert(after[j] == before[j]);
                                    assert(scores[j] == old_scores[j]);
                                }
                            }
                            assert(found@ =~= scored(after, scores));
                        }
                    }
                    i += 1;
                }
                proof {
                    assert(entries@.take(i as int) =~= entries@);
                }
            },
        }
        let best = top_k(&found, k);
        let slots = pad_to(&best, k);
        let out = unzip(&slots);
        proof {
            assert(found@ == scored(cands, scores));
            assert(hits_of(out.0@, out.1@) =~= slots@);
        }
        Ok(out)
    }

    /// The `k` entries of `modality` nearest to `query`, with no filter: see
    /// [`DB::search_with_filter`].
    pub fn search<F: Fn(&Vec<u32>, &Vec<u32>) -> u32>(
        &self,
        query: &Vec<u32>,
        k: usize,
        modality: &str,
        metric: F,
    ) -> (r: Result<(Vec<u64>, Vec<u32>), DbError>)
        requires
            self.wf(),
            forall|a: &Vec<u32>, b: &Vec<u32>| a@.len() == b@.len() ==> metric.requires((a, b)),
        ensures
            match r {
                Ok(out) => {
                    &&& query@.len() == self@.dim
                    &&& is_search_result(
                        metric,
                        query,
                        self.candidates(None, None, modality@),
                        k as nat,
                        out.0@,
                        out.1@,
                    )
                },
                Err(e) => e == DbError::DimensionMismatch && query@.len() != self@.dim,
            },
    {
        self.search_with_filter(query, k, None, None, modality, metric)
    }
}

} // verus!
