//! What holds of the database as a whole, stated over its views and proved.

use crate::codec::{decode, encode, layout_fits, lemma_decode_encode, lemma_encode_decode};
use crate::entry::{Entry, EntryView};
use crate::filter::matches_spec;
use crate::scorer::{lemma_ranking, padded, ranked, ranking, sentinel, top_k_spec, Hit};
use crate::search::{
    candidate_pred, has_modality, hits_of, is_search_result, scored, scores_by,
};
use crate::store::{entry_views, lemma_entry_at, partition_wf, slot_has, Layout, DB};
use vstd::prelude::*;
use vstd::seq_lib::*;

verus! {

/// A second entry under a key that is taken replaces the first.
/// The table holds one entry under that key, the second, and every other key
/// is as it was before the first.
pub proof fn law_overwrite(
    entries: Map<(Seq<char>, u64), EntryView>,
    key: (Seq<char>, u64),
    first: EntryView,
    second: EntryView,
)
    ensures
        entries.insert(key, first).insert(key, second) == entries.insert(key, second),
        entries.insert(key, first).insert(key, second)[key] == second,
        entries.insert(key, first).insert(key, second).dom() == entries.dom().insert(key),
{
    assert(entries.insert(key, first).insert(key, second) =~= entries.insert(key, second));
    assert(entries.insert(key, second).dom() =~= entries.dom().insert(key));
}

/// Linking a pair a second time changes nothing. The edge
/// is in the graph once, and the targets of its source are what they were
/// after the first time.
pub proof fn law_link_idempotent(links: Set<(u64, u64)>, from: u64, to: u64)
    ensures
        links.insert((from, to)).insert((from, to)) == links.insert((from, to)),
        links.finite() ==> links.insert((from, to)).insert((from, to)).len() == links.insert(
            (from, to),
        ).len(),
        links.insert((from, to)).contains((from, to)),
{
    assert(links.insert((from, to)).insert((from, to)) =~= links.insert((from, to)));
}

/// An entry is a candidate exactly if it is one under
/// each of the filters alone.
pub proof fn law_filter_conjunction(
    entry: EntryView,
    type_filter: Option<u8>,
    source_filter: Option<Seq<char>>,
    modality: Seq<char>,
)
    ensures
        matches_spec(entry, type_filter, source_filter, modality) == (matches_spec(
            entry,
            type_filter,
            None,
            modality,
        ) && matches_spec(entry, None, source_filter, modality)),
        matches_spec(entry, None, None, modality) == (entry.modality == modality),
{
}

/// A padded result has `k` slots; the hits come first, and
/// every slot behind them holds the sentinel.
pub proof fn law_padding(hits: Seq<Hit>, k: nat)
    requires
        hits.len() <= k,
    ensures
        padded(hits, k).len() == k,
        padded(hits, k).take(hits.len() as int) == hits,
        forall|i: int| hits.len() <= i < k ==> padded(hits, k)[i] == sentinel(),
{
    assert(padded(hits, k).take(hits.len() as int) =~= hits);
}

/// The `k` best are as many as there are candidates, but no more than `k`;
/// they are in rank order, and each of them is a candidate.
pub proof fn law_top_k(c: Seq<Hit>, k: nat)
    ensures
        top_k_spec(c, k).len() == if k < c.len() {
            k
        } else {
            c.len()
        },
        ranked(top_k_spec(c, k)),
        top_k_spec(c, k) == ranking(c).take(top_k_spec(c, k).len() as int),
        forall|i: int| 0 <= i < top_k_spec(c, k).len() ==> c.contains(#[trigger] top_k_spec(c, k)[i]),
{
    lemma_ranking(c);
    let r = ranking(c);
    let t = top_k_spec(c, k);
    assert(t =~= r.take(t.len() as int));
    assert forall|i: int| 0 <= i < t.len() implies c.contains(#[trigger] t[i]) by {
        broadcast use group_to_multiset_ensures;

        assert(r[i] == t[i]);
        assert(r.contains(t[i]));
        assert(r.to_multiset().count(t[i]) > 0);
    }
}

/// The entries that pass the filters, as a predicate on views.
pub open spec fn view_pred(
    type_filter: Option<u8>,
    source_filter: Option<Seq<char>>,
    m: Seq<char>,
) -> spec_fn(EntryView) -> bool {
    |e: EntryView| matches_spec(e, type_filter, source_filter, m)
}

/// The views of the candidates of a search, read off the layout.
pub open spec fn view_candidates(
    l: Layout,
    type_filter: Option<u8>,
    source_filter: Option<Seq<char>>,
    m: Seq<char>,
) -> Seq<EntryView> {
    if exists|p: int| 0 <= p < l.partitions.len() && (#[trigger] l.partitions[p]).modality == m {
        let p = choose|p: int|
            0 <= p < l.partitions.len() && (#[trigger] l.partitions[p]).modality == m;
        l.partitions[p].entries.filter(view_pred(type_filter, source_filter, m))
    } else {
        Seq::empty()
    }
}

/// What a search ranks depends on the layout alone: the views of the
/// candidates are the entries of the searched modality that meet the filters.
pub proof fn law_candidate_views(
    db: &DB,
    type_filter: Option<u8>,
    source_filter: Option<Seq<char>>,
    m: Seq<char>,
)
    requires
        db.wf(),
    ensures
        entry_views(db.candidates(type_filter, source_filter, m)) == view_candidates(
            db.layout(),
            type_filter,
            source_filter,
            m,
        ),
{
    let l = db.layout();
    let parts = db.parts();
    let cands = db.candidates(type_filter, source_filter, m);
    if exists|p: int| has_modality(parts, p, m) {
        let p = choose|p: int| has_modality(parts, p, m);
        assert(l.partitions[p].modality == m);
        let q = choose|q: int|
            0 <= q < l.partitions.len() && (#[trigger] l.partitions[q]).modality == m;
        if p < q {
            assert(l.partitions[p].modality != l.partitions[q].modality);
        } else if q < p {
            assert(l.partitions[q].modality != l.partitions[p].modality);
        }
        let es = parts[p].entries@;
        lemma_filter_view_commute(
            es,
            candidate_pred(type_filter, source_filter, m),
            view_pred(type_filter, source_filter, m),
        );
        assert(es.map_values(|x: Entry| x.view()) =~= entry_views(es));
        assert(es.filter(candidate_pred(type_filter, source_filter, m)).map_values(
            |x: Entry| x.view(),
        ) =~= entry_views(cands));
    } else {
        if exists|q: int|
            0 <= q < l.partitions.len() && (#[trigger] l.partitions[q]).modality == m {
            let q = choose|q: int|
                0 <= q < l.partitions.len() && (#[trigger] l.partitions[q]).modality == m;
            assert(has_modality(parts, q, m));
        }
        assert(entry_views(cands) =~= Seq::<EntryView>::empty());
    }
}

/// Filtering keeps the order: what passes a filter over ascending
/// identifiers has ascending identifiers.
pub proof fn lemma_filter_ascending(s: Seq<EntryView>, pred: spec_fn(EntryView) -> bool)
    requires
        forall|i: int, j: int| 0 <= i < j < s.len() ==> s[i].id < s[j].id,
    ensures
        forall|i: int, j: int|
            0 <= i < j < s.filter(pred).len() ==> s.filter(pred)[i].id < s.filter(pred)[j].id,
    decreases s.len(),
{
    reveal(Seq::filter);
    if s.len() > 0 {
        let rest = s.drop_last();
        let f = rest.filter(pred);
        assert forall|i: int, j: int| 0 <= i < j < rest.len() implies rest[i].id < rest[j].id by {
            assert(rest[i] == s[i] && rest[j] == s[j]);
        }
        lemma_filter_ascending(rest, pred);
        if pred(s.last()) {
            let out = s.filter(pred);
            assert(out == f.push(s.last()));
            assert forall|i: int, j: int| 0 <= i < j < out.len() implies out[i].id
                < out[j].id by {
                if j == out.len() - 1 {
                    assert(f.contains(f[i]));
                    rest.lemma_filter_contains_rev(pred, f[i]);
                    let x = choose|x: int| 0 <= x < rest.len() && rest[x] == f[i];
                    assert(s[x].id < s[s.len() - 1].id);
                } else {
                    assert(out[i] == f[i] && out[j] == f[j]);
                }
            }
        }
    }
}

/// The candidates of a search are determined by the database's view: they
/// are the entries that the view holds under the searched modality and that
/// meet the filters, each once, in ascending order of their identifiers.
pub proof fn law_candidates(
    l: Layout,
    type_filter: Option<u8>,
    source_filter: Option<Seq<char>>,
    m: Seq<char>,
)
    requires
        l.wf(),
    ensures
        ({
            let c = view_candidates(l, type_filter, source_filter, m);
            &&& forall|i: int, j: int| 0 <= i < j < c.len() ==> c[i].id < c[j].id
            &&& forall|i: int|
                0 <= i < c.len() ==> l@.entries.contains_key((m, (#[trigger] c[i]).id))
                    && l@.entries[(m, c[i].id)] == c[i] && matches_spec(
                    c[i],
                    type_filter,
                    source_filter,
                    m,
                )
            &&& forall|id: u64|
                l@.entries.contains_key((m, id)) && matches_spec(
                    #[trigger] l@.entries[(m, id)],
                    type_filter,
                    source_filter,
                    m,
                ) ==> c.contains(l@.entries[(m, id)])
        }),
{
    let c = view_candidates(l, type_filter, source_filter, m);
    let pred = view_pred(type_filter, source_filter, m);
    if exists|p: int| 0 <= p < l.partitions.len() && (#[trigger] l.partitions[p]).modality == m {
        let p = choose|p: int|
            0 <= p < l.partitions.len() && (#[trigger] l.partitions[p]).modality == m;
        let es = l.partitions[p].entries;
        assert(partition_wf(l.partitions[p], l.dim));
        lemma_filter_ascending(es, pred);
        assert forall|i: int| 0 <= i < c.len() implies l@.entries.contains_key(
            (m, (#[trigger] c[i]).id),
        ) && l@.entries[(m, c[i].id)] == c[i] && matches_spec(
            c[i],
            type_filter,
            source_filter,
            m,
        ) by {
            es.lemma_filter_pred(pred, i);
            assert(c.contains(c[i]));
            es.lemma_filter_contains_rev(pred, c[i]);
            let x = choose|x: int| 0 <= x < es.len() && es[x] == c[i];
            lemma_entry_at(l, p, x);
        }
        assert forall|id: u64|
            l@.entries.contains_key((m, id)) && matches_spec(
                #[trigger] l@.entries[(m, id)],
                type_filter,
                source_filter,
                m,
            ) implies c.contains(l@.entries[(m, id)]) by {
            let (q, x) = choose|q: int, x: int| slot_has(l.partitions, q, x, (m, id));
            if q < p {
                assert(l.partitions[q].modality != l.partitions[p].modality);
            } else if p < q {
                assert(l.partitions[p].modality != l.partitions[q].modality);
            }
            lemma_entry_at(l, p, x);
            es.lemma_filter_contains(pred, x);
        }
    } else {
        assert forall|id: u64| l@.entries.contains_key((m, id)) implies false by {
            let (q, x) = choose|q: int, x: int| slot_has(l.partitions, q, x, (m, id));
            assert(l.partitions[q].modality == m);
        }
    }
}

/// Each candidate with the distance that `dist` gives it.
pub open spec fn view_scored(
    cands: Seq<EntryView>,
    dist: spec_fn(Seq<u32>, Seq<u32>) -> u32,
    query: Seq<u32>,
) -> Seq<Hit> {
    Seq::new(cands.len(), |i: int| Hit { id: cands[i].id, score: dist(query, cands[i].embedding) })
}

/// Search is a function of what the database holds: with a metric whose
/// result is determined by its two arguments, the result of a search is the
/// padded ranking of the candidates under that metric, and nothing else.
pub proof fn law_search_determined<F: Fn(&Vec<u32>, &Vec<u32>) -> u32>(
    metric: F,
    dist: spec_fn(Seq<u32>, Seq<u32>) -> u32,
    query: &Vec<u32>,
    cands: Seq<Entry>,
    k: nat,
    ids: Seq<u64>,
    dists: Seq<u32>,
)
    requires
        is_search_result(metric, query, cands, k, ids, dists),
        forall|a: &Vec<u32>, b: &Vec<u32>, r: u32|
            #[trigger] metric.ensures((a, b), r) ==> r == dist(a@, b@),
    ensures
        hits_of(ids, dists) == padded(
            top_k_spec(view_scored(entry_views(cands), dist, query@), k),
            k,
        ),
{
    let scores = choose|scores: Seq<u32>|
        #![trigger scored(cands, scores)]
        scores_by(metric, query, cands, scores) && hits_of(ids, dists) == padded(
            top_k_spec(scored(cands, scores), k),
            k,
        );
    assert forall|i: int| 0 <= i < cands.len() implies scores[i] == dist(
        query@,
        cands[i].embedding@,
    ) by {
        assert(metric.ensures((query, &cands[i].embedding), scores[i]));
    }
    assert(scored(cands, scores) =~= view_scored(entry_views(cands), dist, query@));
}

/// The bytes that decode are exactly the encodings of well-formed databases
/// whose dimension this machine can address, and each of them decodes to the
/// one database that it encodes.
pub proof fn law_decode_characterised(b: Seq<u8>)
    ensures
        decode(b) is Some <==> exists|l: Layout|
            l.wf() && layout_fits(l) && l.dim <= usize::MAX && #[trigger] encode(l) == b,
        decode(b) is Some ==> encode(decode(b).unwrap()) == b,
{
    if decode(b) is Some {
        lemma_encode_decode(b);
        let l = decode(b).unwrap();
        assert(l.wf() && layout_fits(l) && l.dim <= usize::MAX && encode(l) == b);
    }
    if exists|l: Layout|
        l.wf() && layout_fits(l) && l.dim <= usize::MAX && #[trigger] encode(l) == b {
        let l = choose|l: Layout|
            l.wf() && layout_fits(l) && l.dim <= usize::MAX && #[trigger] encode(l) == b;
        lemma_decode_encode(l);
    }
}

/// Two well-formed databases with the same bytes are the same database.
pub proof fn law_encode_injective(a: Layout, b: Layout)
    requires
        a.wf(),
        b.wf(),
        layout_fits(a),
        layout_fits(b),
        encode(a) == encode(b),
    ensures
        a == b,
{
    crate::codec::lemma_parse_encode(a);
    crate::codec::lemma_parse_encode(b);
}

/// A database that is read back from its own bytes is the
/// database that was written. It has the same dimension, the same entry under
/// every key, the same edges, and every search of it ranks the same
/// candidates.
pub proof fn law_round_trip(
    written: &DB,
    read: &DB,
    type_filter: Option<u8>,
    source_filter: Option<Seq<char>>,
    m: Seq<char>,
)
    requires
        written.wf(),
        read.wf(),
        layout_fits(written.layout()),
        decode(encode(written.layout())) == Some(read.layout()),
    ensures
        read.layout() == written.layout(),
        read@ == written@,
        forall|from: u64, to: u64| read@.links.contains((from, to)) == written@.links.contains((from, to)),
        entry_views(read.candidates(type_filter, source_filter, m)) == entry_views(
            written.candidates(type_filter, source_filter, m),
        ),
{
    lemma_decode_encode(written.layout());
    law_candidate_views(written, type_filter, source_filter, m);
    law_candidate_views(read, type_filter, source_filter, m);
}

} // verus!
