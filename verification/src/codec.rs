//! The file format of a whole database and its encoder.
//!
//! ```text
//! file      := magic dim:u64 count:u64 partition* count:u64 link*
//! partition := modality:text count:u64 entry*
//! entry     := id:u64 timestamp:u64 importance:u32 context_type:u8
//!              source:opt-text content:opt-text component:u32 * dim
//! link      := from:u64 to:u64
//! ```
//!
//! Integers are little-endian. Nothing may follow the last link.

use crate::entry::{Entry, EntryView};
use crate::format::{
    at, bits_i64, dec_opt_text, dec_text, dec_u32, dec_u64, dec_u8, enc_opt_text, enc_text,
    enc_u32, enc_u64, i64_bits, lemma_at_split, lemma_bits_round, lemma_dec_opt_text,
    lemma_dec_text, lemma_dec_u32, lemma_dec_u64, lemma_enc_opt_text, lemma_enc_text,
    lemma_enc_u32, lemma_enc_u64, lemma_i64_round, lemma_u32_round, opt_text_fits, text_fits,
    to_bits, write_opt_text, write_text, write_u32, write_u64,
};
use crate::store::{entry_views, partition_views, Layout, Partition, PartitionView, DB};
use vstd::prelude::*;
use vstd::string::*;

verus! {

/// The eight bytes that every database file starts with.
pub open spec fn magic() -> Seq<u8> {
    seq![0x46u8, 0x45u8, 0x41u8, 0x54u8, 0x48u8, 0x45u8, 0x52u8, 0x01u8]
}

/// The components of an embedding, one behind the other.
pub open spec fn enc_embedding(v: Seq<u32>) -> Seq<u8>
    decreases v.len(),
{
    if v.len() == 0 {
        Seq::empty()
    } else {
        enc_embedding(v.drop_last()) + enc_u32(v.last())
    }
}

/// Reads an embedding of `n` components at `pos`.
pub open spec fn dec_embedding(b: Seq<u8>, pos: int, n: nat) -> Option<(Seq<u32>, int)>
    decreases n,
{
    if n == 0 {
        Some((Seq::empty(), pos))
    } else {
        match dec_embedding(b, pos, (n - 1) as nat) {
            Some((v, p)) => match dec_u32(b, p) {
                Some((x, q)) => Some((v.push(x), q)),
                None => None,
            },
            None => None,
        }
    }
}

/// The texts of an entry are short enough to be written.
pub open spec fn entry_fits(e: EntryView) -> bool {
    opt_text_fits(e.source) && opt_text_fits(e.content)
}

/// An entry. Its modality is that of the partition it stands in and its
/// embedding has the length that the file's header gives, so neither is
/// written with it.
pub open spec fn enc_entry(e: EntryView) -> Seq<u8> {
    enc_u64(e.id) + enc_u64(i64_bits(e.timestamp)) + enc_u32(e.importance) + seq![e.context_type]
        + enc_opt_text(e.source) + enc_opt_text(e.content) + enc_embedding(e.embedding)
}

/// Reads an entry of the modality `modality` and the dimension `dim` at
/// `pos`.
pub open spec fn dec_entry(b: Seq<u8>, pos: int, dim: nat, modality: Seq<char>) -> Option<
    (EntryView, int),
> {
    match dec_u64(b, pos) {
        Some((id, at1)) => match dec_u64(b, at1) {
            Some((ts, at2)) => match dec_u32(b, at2) {
                Some((importance, at3)) => match dec_u8(b, at3) {
                    Some((context_type, at4)) => match dec_opt_text(b, at4) {
                        Some((source, at5)) => match dec_opt_text(b, at5) {
                            Some((content, at6)) => match dec_embedding(b, at6, dim) {
                                Some((embedding, at7)) => Some(
                                    (
                                        EntryView {
                                            id,
                                            embedding,
                                            timestamp: bits_i64(ts),
                                            importance,
                                            context_type,
                                            source,
                                            content,
                                            modality,
                                        },
                                        at7,
                                    ),
                                ),
                                None => None,
                            },
                            None => None,
                        },
                        None => None,
                    },
                    None => None,
                },
                None => None,
            },
            None => None,
        },
        None => None,
    }
}

/// The entries of a partition, one behind the other.
pub open spec fn enc_entries(es: Seq<EntryView>) -> Seq<u8>
    decreases es.len(),
{
    if es.len() == 0 {
        Seq::empty()
    } else {
        enc_entries(es.drop_last()) + enc_entry(es.last())
    }
}

/// Reads `n` entries at `pos`.
pub open spec fn dec_entries(b: Seq<u8>, pos: int, n: nat, dim: nat, modality: Seq<char>) -> Option<
    (Seq<EntryView>, int),
>
    decreases n,
{
    if n == 0 {
        Some((Seq::empty(), pos))
    } else {
        match dec_entries(b, pos, (n - 1) as nat, dim, modality) {
            Some((es, p)) => match dec_entry(b, p, dim, modality) {
                Some((e, q)) => Some((es.push(e), q)),
                None => None,
            },
            None => None,
        }
    }
}

/// The name and the entries of a partition can be written.
pub open spec fn partition_fits(p: PartitionView) -> bool {
    &&& text_fits(p.modality)
    &&& p.entries.len() <= u64::MAX
    &&& forall|i: int| 0 <= i < p.entries.len() ==> entry_fits(#[trigger] p.entries[i])
}

/// A partition: its modality, the number of its entries, the entries.
pub open spec fn enc_partition(p: PartitionView) -> Seq<u8> {
    enc_text(p.modality) + enc_u64(p.entries.len() as u64) + enc_entries(p.entries)
}

/// Reads a partition at `pos`.
pub open spec fn dec_partition(b: Seq<u8>, pos: int, dim: nat) -> Option<(PartitionView, int)> {
    match dec_text(b, pos) {
        Some((modality, at1)) => match dec_u64(b, at1) {
            Some((n, at2)) => match dec_entries(b, at2, n as nat, dim, modality) {
                Some((entries, at3)) => Some((PartitionView { modality, entries }, at3)),
                None => None,
            },
            None => None,
        },
        None => None,
    }
}

/// The partitions, one behind the other.
pub open spec fn enc_partitions(ps: Seq<PartitionView>) -> Seq<u8>
    decreases ps.len(),
{
    if ps.len() == 0 {
        Seq::empty()
    } else {
        enc_partitions(ps.drop_last()) + enc_partition(ps.last())
    }
}

/// Reads `n` partitions at `pos`.
pub open spec fn dec_partitions(b: Seq<u8>, pos: int, n: nat, dim: nat) -> Option<
    (Seq<PartitionView>, int),
>
    decreases n,
{
    if n == 0 {
        Some((Seq::empty(), pos))
    } else {
        match dec_partitions(b, pos, (n - 1) as nat, dim) {
            Some((ps, p)) => match dec_partition(b, p, dim) {
                Some((part, q)) => Some((ps.push(part), q)),
                None => None,
            },
            None => None,
        }
    }
}

/// The edges, one behind the other, each as source and target.
pub open spec fn enc_links(ls: Seq<(u64, u64)>) -> Seq<u8>
    decreases ls.len(),
{
    if ls.len() == 0 {
        Seq::empty()
    } else {
        enc_links(ls.drop_last()) + (enc_u64(ls.last().0) + enc_u64(ls.last().1))
    }
}

/// Reads `n` edges at `pos`.
pub open spec fn dec_links(b: Seq<u8>, pos: int, n: nat) -> Option<(Seq<(u64, u64)>, int)>
    decreases n,
{
    if n == 0 {
        Some((Seq::empty(), pos))
    } else {
        match dec_links(b, pos, (n - 1) as nat) {
            Some((ls, p)) => match dec_u64(b, p) {
                Some((from, q)) => match dec_u64(b, q) {
                    Some((to, r)) => Some((ls.push((from, to)), r)),
                    None => None,
                },
                None => None,
            },
            None => None,
        }
    }
}

/// Every count and every length of the layout can be written.
pub open spec fn layout_fits(l: Layout) -> bool {
    &&& l.dim <= u64::MAX
    &&& l.partitions.len() <= u64::MAX
    &&& forall|p: int| 0 <= p < l.partitions.len() ==> partition_fits(#[trigger] l.partitions[p])
    &&& l.links.len() <= u64::MAX
}

/// The bytes of a database file.
pub open spec fn encode(l: Layout) -> Seq<u8> {
    magic() + enc_u64(l.dim as u64) + enc_u64(l.partitions.len() as u64) + enc_partitions(
        l.partitions,
    ) + enc_u64(l.links.len() as u64) + enc_links(l.links)
}

/// What the bytes hold if they have the shape of a database file.
pub open spec fn parse(b: Seq<u8>) -> Option<Layout> {
    if at(b, 0, magic()) {
        match dec_u64(b, 8) {
            Some((dim, at1)) => match dec_u64(b, at1) {
                Some((np, at2)) => match dec_partitions(b, at2, np as nat, dim as nat) {
                    Some((partitions, at3)) => match dec_u64(b, at3) {
                        Some((nl, at4)) => match dec_links(b, at4, nl as nat) {
                            Some((links, at5)) => if at5 == b.len() {
                                Some(Layout { dim: dim as nat, partitions, links })
                            } else {
                                None
                            },
                            None => None,
                        },
                        None => None,
                    },
                    None => None,
                },
                None => None,
            },
            None => None,
        }
    } else {
        None
    }
}

/// The database that the bytes hold: they have the shape of a database file,
/// what they hold is well formed, and its dimension is one that this machine
/// can address. Everything else is corrupt.
pub open spec fn decode(b: Seq<u8>) -> Option<Layout> {
    match parse(b) {
        Some(l) => if l.wf() && l.dim <= usize::MAX {
            Some(l)
        } else {
            None
        },
        None => None,
    }
}

/// The decoder reads an embedding back.
pub proof fn lemma_dec_embedding(b: Seq<u8>, pos: int, v: Seq<u32>)
    requires
        at(b, pos, enc_embedding(v)),
    ensures
        dec_embedding(b, pos, v.len()) == Some((v, pos + enc_embedding(v).len())),
    decreases v.len(),
{
    if v.len() > 0 {
        let head = enc_embedding(v.drop_last());
        lemma_at_split(b, pos, head, enc_u32(v.last()));
        lemma_dec_embedding(b, pos, v.drop_last());
        lemma_dec_u32(b, pos + head.len(), v.last());
        assert(v.drop_last().push(v.last()) =~= v);
    }
}

/// The decoder reads an entry back.
pub proof fn lemma_dec_entry(b: Seq<u8>, pos: int, e: EntryView)
    requires
        at(b, pos, enc_entry(e)),
        entry_fits(e),
    ensures
        dec_entry(b, pos, e.embedding.len(), e.modality) == Some((e, pos + enc_entry(e).len())),
{
    let f1 = enc_u64(e.id);
    let f2 = enc_u64(i64_bits(e.timestamp));
    let f3 = enc_u32(e.importance);
    let f4 = seq![e.context_type];
    let f5 = enc_opt_text(e.source);
    let f6 = enc_opt_text(e.content);
    let f7 = enc_embedding(e.embedding);
    lemma_at_split(b, pos, f1 + f2 + f3 + f4 + f5 + f6, f7);
    lemma_at_split(b, pos, f1 + f2 + f3 + f4 + f5, f6);
    lemma_at_split(b, pos, f1 + f2 + f3 + f4, f5);
    lemma_at_split(b, pos, f1 + f2 + f3, f4);
    lemma_at_split(b, pos, f1 + f2, f3);
    lemma_at_split(b, pos, f1, f2);
    lemma_dec_u64(b, pos, e.id);
    lemma_dec_u64(b, pos + 8, i64_bits(e.timestamp));
    lemma_i64_round(e.timestamp);
    lemma_dec_u32(b, pos + 16, e.importance);
    assert(b.subrange(pos + 20, pos + 21)[0] == b[pos + 20]);
    lemma_dec_opt_text(b, pos + 21, e.source);
    lemma_dec_opt_text(b, pos + 21 + f5.len(), e.content);
    lemma_dec_embedding(b, pos + 21 + f5.len() + f6.len(), e.embedding);
}

/// The decoder reads the entries of a partition back.
pub proof fn lemma_dec_entries(b: Seq<u8>, pos: int, es: Seq<EntryView>, dim: nat, m: Seq<char>)
    requires
        at(b, pos, enc_entries(es)),
        forall|i: int|
            0 <= i < es.len() ==> entry_fits(#[trigger] es[i]) && es[i].embedding.len() == dim
                && es[i].modality == m,
    ensures
        dec_entries(b, pos, es.len(), dim, m) == Some((es, pos + enc_entries(es).len())),
    decreases es.len(),
{
    if es.len() > 0 {
        let head = enc_entries(es.drop_last());
        lemma_at_split(b, pos, head, enc_entry(es.last()));
        assert forall|i: int| 0 <= i < es.drop_last().len() implies entry_fits(
            #[trigger] es.drop_last()[i],
        ) && es.drop_last()[i].embedding.len() == dim && es.drop_last()[i].modality == m by {
            assert(es.drop_last()[i] == es[i]);
        }
        lemma_dec_entries(b, pos, es.drop_last(), dim, m);
        assert(entry_fits(es[es.len() - 1]));
        lemma_dec_entry(b, pos + head.len(), es.last());
        assert(es.drop_last().push(es.last()) =~= es);
    }
}

/// The decoder reads a partition back.
pub proof fn lemma_dec_partition(b: Seq<u8>, pos: int, p: PartitionView, dim: nat)
    requires
        at(b, pos, enc_partition(p)),
        partition_fits(p),
        crate::store::partition_wf(p, dim),
    ensures
        dec_partition(b, pos, dim) == Some((p, pos + enc_partition(p).len())),
{
    let f1 = enc_text(p.modality);
    let f2 = enc_u64(p.entries.len() as u64);
    lemma_at_split(b, pos, f1 + f2, enc_entries(p.entries));
    lemma_at_split(b, pos, f1, f2);
    lemma_dec_text(b, pos, p.modality);
    lemma_dec_u64(b, pos + f1.len(), p.entries.len() as u64);
    lemma_dec_entries(b, pos + f1.len() + 8, p.entries, dim, p.modality);
}

/// The decoder reads the partitions back.
pub proof fn lemma_dec_partitions(b: Seq<u8>, pos: int, ps: Seq<PartitionView>, dim: nat)
    requires
        at(b, pos, enc_partitions(ps)),
        forall|i: int|
            0 <= i < ps.len() ==> partition_fits(#[trigger] ps[i]) && crate::store::partition_wf(
                ps[i],
                dim,
            ),
    ensures
        dec_partitions(b, pos, ps.len(), dim) == Some((ps, pos + enc_partitions(ps).len())),
    decreases ps.len(),
{
    if ps.len() > 0 {
        let head = enc_partitions(ps.drop_last());
        lemma_at_split(b, pos, head, enc_partition(ps.last()));
        assert forall|i: int| 0 <= i < ps.drop_last().len() implies partition_fits(
            #[trigger] ps.drop_last()[i],
        ) && crate::store::partition_wf(ps.drop_last()[i], dim) by {
            assert(ps.drop_last()[i] == ps[i]);
        }
        lemma_dec_partitions(b, pos, ps.drop_last(), dim);
        assert(partition_fits(ps[ps.len() - 1]));
        lemma_dec_partition(b, pos + head.len(), ps.last(), dim);
        assert(ps.drop_last().push(ps.last()) =~= ps);
    }
}

/// The decoder reads the edges back.
pub proof fn lemma_dec_links(b: Seq<u8>, pos: int, ls: Seq<(u64, u64)>)
    requires
        at(b, pos, enc_links(ls)),
    ensures
        dec_links(b, pos, ls.len()) == Some((ls, pos + enc_links(ls).len())),
        enc_links(ls).len() == 16 * ls.len(),
    decreases ls.len(),
{
    if ls.len() > 0 {
        let head = enc_links(ls.drop_last());
        let from = enc_u64(ls.last().0);
        let to = enc_u64(ls.last().1);
        lemma_at_split(b, pos, head, from + to);
        lemma_at_split(b, pos + head.len(), from, to);
        lemma_dec_links(b, pos, ls.drop_last());
        lemma_dec_u64(b, pos + head.len(), ls.last().0);
        lemma_dec_u64(b, pos + head.len() + 8, ls.last().1);
        assert(ls.drop_last().push(ls.last()) =~= ls);
    }
}

/// The decoder reads back the layout that the encoder wrote.
pub proof fn lemma_parse_encode(l: Layout)
    requires
        l.wf(),
        layout_fits(l),
    ensures
        parse(encode(l)) == Some(l),
{
    let b = encode(l);
    let f1 = magic();
    let f2 = enc_u64(l.dim as u64);
    let f3 = enc_u64(l.partitions.len() as u64);
    let f4 = enc_partitions(l.partitions);
    let f5 = enc_u64(l.links.len() as u64);
    let f6 = enc_links(l.links);
    assert(b.subrange(0, b.len() as int) =~= b);
    lemma_at_split(b, 0, f1 + f2 + f3 + f4 + f5, f6);
    lemma_at_split(b, 0, f1 + f2 + f3 + f4, f5);
    lemma_at_split(b, 0, f1 + f2 + f3, f4);
    lemma_at_split(b, 0, f1 + f2, f3);
    lemma_at_split(b, 0, f1, f2);
    lemma_dec_u64(b, 8, l.dim as u64);
    lemma_dec_u64(b, 16, l.partitions.len() as u64);
    lemma_dec_partitions(b, 24, l.partitions, l.dim);
    lemma_dec_u64(b, 24 + f4.len() as int, l.links.len() as u64);
    lemma_dec_links(b, 32 + f4.len() as int, l.links);
}

/// The bytes of a well-formed database decode to that database.
pub proof fn lemma_decode_encode(l: Layout)
    requires
        l.wf(),
        layout_fits(l),
        l.dim <= usize::MAX,
    ensures
        decode(encode(l)) == Some(l),
{
    lemma_parse_encode(l);
}

/// The entries of a partition are of its modality and of the dimension `dim`.
pub open spec fn partition_shaped(p: PartitionView, dim: nat) -> bool {
    forall|j: int|
        0 <= j < p.entries.len() ==> (#[trigger] p.entries[j]).modality == p.modality
            && p.entries[j].embedding.len() == dim
}

/// What the decoder reads as an embedding is what the encoder writes for it.
pub proof fn lemma_enc_embedding(b: Seq<u8>, pos: int, n: nat)
    requires
        0 <= pos <= b.len(),
        dec_embedding(b, pos, n) is Some,
    ensures
        ({
            let (v, q) = dec_embedding(b, pos, n).unwrap();
            &&& at(b, pos, enc_embedding(v))
            &&& q == pos + enc_embedding(v).len()
            &&& v.len() == n
        }),
    decreases n,
{
    if n > 0 {
        let (v, p) = dec_embedding(b, pos, (n - 1) as nat).unwrap();
        let (x, q) = dec_u32(b, p).unwrap();
        lemma_enc_embedding(b, pos, (n - 1) as nat);
        lemma_enc_u32(b, p);
        lemma_u32_round(x);
        assert(v.push(x).drop_last() =~= v);
        assert(v.push(x).last() == x);
        lemma_at_split(b, pos, enc_embedding(v), enc_u32(x));
    } else {
        assert(b.subrange(pos, pos) =~= Seq::<u8>::empty());
    }
}

/// What the decoder reads as an entry is what the encoder writes for it.
pub proof fn lemma_enc_entry(b: Seq<u8>, pos: int, dim: nat, m: Seq<char>)
    requires
        dec_entry(b, pos, dim, m) is Some,
    ensures
        ({
            let (e, q) = dec_entry(b, pos, dim, m).unwrap();
            &&& at(b, pos, enc_entry(e))
            &&& q == pos + enc_entry(e).len()
            &&& entry_fits(e)
            &&& e.modality == m
            &&& e.embedding.len() == dim
        }),
{
    let (id, at1) = dec_u64(b, pos).unwrap();
    let (ts, at2) = dec_u64(b, at1).unwrap();
    let (importance, at3) = dec_u32(b, at2).unwrap();
    let (context_type, at4) = dec_u8(b, at3).unwrap();
    let (source, at5) = dec_opt_text(b, at4).unwrap();
    let (content, at6) = dec_opt_text(b, at5).unwrap();
    let (embedding, at7) = dec_embedding(b, at6, dim).unwrap();
    lemma_enc_u64(b, pos);
    lemma_enc_u64(b, at1);
    lemma_bits_round(ts);
    lemma_enc_u32(b, at2);
    lemma_u32_round(importance);
    assert(b.subrange(at3, at3 + 1) =~= seq![context_type]);
    lemma_enc_opt_text(b, at4);
    lemma_enc_opt_text(b, at5);
    lemma_enc_embedding(b, at6, dim);
    let f1 = enc_u64(id);
    let f2 = enc_u64(ts);
    let f3 = enc_u32(importance);
    let f4 = seq![context_type];
    let f5 = enc_opt_text(source);
    let f6 = enc_opt_text(content);
    let f7 = enc_embedding(embedding);
    lemma_at_split(b, pos, f1, f2);
    lemma_at_split(b, pos, f1 + f2, f3);
    lemma_at_split(b, pos, f1 + f2 + f3, f4);
    lemma_at_split(b, pos, f1 + f2 + f3 + f4, f5);
    lemma_at_split(b, pos, f1 + f2 + f3 + f4 + f5, f6);
    lemma_at_split(b, pos, f1 + f2 + f3 + f4 + f5 + f6, f7);
}

/// What the decoder reads as the entries of a partition is what the encoder
/// writes for them.
pub proof fn lemma_enc_entries(b: Seq<u8>, pos: int, n: nat, dim: nat, m: Seq<char>)
    requires
        0 <= pos <= b.len(),
        dec_entries(b, pos, n, dim, m) is Some,
    ensures
        ({
            let (es, q) = dec_entries(b, pos, n, dim, m).unwrap();
            &&& at(b, pos, enc_entries(es))
            &&& q == pos + enc_entries(es).len()
            &&& es.len() == n
            &&& forall|i: int|
                0 <= i < es.len() ==> entry_fits(#[trigger] es[i]) && es[i].modality == m
                    && es[i].embedding.len() == dim
        }),
    decreases n,
{
    if n > 0 {
        let (es, p) = dec_entries(b, pos, (n - 1) as nat, dim, m).unwrap();
        let (e, q) = dec_entry(b, p, dim, m).unwrap();
        lemma_enc_entries(b, pos, (n - 1) as nat, dim, m);
        lemma_enc_entry(b, p, dim, m);
        let all = es.push(e);
        assert(all.drop_last() =~= es);
        lemma_at_split(b, pos, enc_entries(es), enc_entry(e));
        assert forall|i: int| 0 <= i < all.len() implies entry_fits(#[trigger] all[i])
            && all[i].modality == m && all[i].embedding.len() == dim by {
            if i < es.len() {
                assert(all[i] == es[i]);
            }
        }
    } else {
        assert(b.subrange(pos, pos) =~= Seq::<u8>::empty());
    }
}

/// What the decoder reads as a partition is what the encoder writes for it.
pub proof fn lemma_enc_partition(b: Seq<u8>, pos: int, dim: nat)
    requires
        dec_partition(b, pos, dim) is Some,
    ensures
        ({
            let (p, q) = dec_partition(b, pos, dim).unwrap();
            &&& at(b, pos, enc_partition(p))
            &&& q == pos + enc_partition(p).len()
            &&& partition_fits(p)
            &&& partition_shaped(p, dim)
        }),
{
    let (m, at1) = dec_text(b, pos).unwrap();
    let (n, at2) = dec_u64(b, at1).unwrap();
    let (es, at3) = dec_entries(b, at2, n as nat, dim, m).unwrap();
    lemma_enc_text(b, pos);
    lemma_enc_u64(b, at1);
    lemma_enc_entries(b, at2, n as nat, dim, m);
    lemma_at_split(b, pos, enc_text(m), enc_u64(n));
    lemma_at_split(b, pos, enc_text(m) + enc_u64(n), enc_entries(es));
}

/// What the decoder reads as the partitions is what the encoder writes for
/// them.
pub proof fn lemma_enc_partitions(b: Seq<u8>, pos: int, n: nat, dim: nat)
    requires
        0 <= pos <= b.len(),
        dec_partitions(b, pos, n, dim) is Some,
    ensures
        ({
            let (ps, q) = dec_partitions(b, pos, n, dim).unwrap();
            &&& at(b, pos, enc_partitions(ps))
            &&& q == pos + enc_partitions(ps).len()
            &&& ps.len() == n
            &&& forall|i: int|
                0 <= i < ps.len() ==> partition_fits(#[trigger] ps[i]) && partition_shaped(
                    ps[i],
                    dim,
                )
        }),
    decreases n,
{
    if n > 0 {
        let (ps, p) = dec_partitions(b, pos, (n - 1) as nat, dim).unwrap();
        let (part, q) = dec_partition(b, p, dim).unwrap();
        lemma_enc_partitions(b, pos, (n - 1) as nat, dim);
        lemma_enc_partition(b, p, dim);
        let all = ps.push(part);
        assert(all.drop_last() =~= ps);
        lemma_at_split(b, pos, enc_partitions(ps), enc_partition(part));
        assert forall|i: int| 0 <= i < all.len() implies partition_fits(#[trigger] all[i])
            && partition_shaped(all[i], dim) by {
            if i < ps.len() {
                assert(all[i] == ps[i]);
            }
        }
    } else {
        assert(b.subrange(pos, pos) =~= Seq::<u8>::empty());
    }
}

/// What the decoder reads as the edges is what the encoder writes for them.
pub proof fn lemma_enc_links(b: Seq<u8>, pos: int, n: nat)
    requires
        0 <= pos <= b.len(),
        dec_links(b, pos, n) is Some,
    ensures
        ({
            let (ls, q) = dec_links(b, pos, n).unwrap();
            &&& at(b, pos, enc_links(ls))
            &&& q == pos + enc_links(ls).len()
            &&& ls.len() == n
        }),
    decreases n,
{
    if n > 0 {
        let (ls, p) = dec_links(b, pos, (n - 1) as nat).unwrap();
        let (from, q) = dec_u64(b, p).unwrap();
        let (to, r) = dec_u64(b, q).unwrap();
        lemma_enc_links(b, pos, (n - 1) as nat);
        lemma_enc_u64(b, p);
        lemma_enc_u64(b, q);
        let all = ls.push((from, to));
        assert(all.drop_last() =~= ls);
        lemma_at_split(b, p, enc_u64(from), enc_u64(to));
        lemma_at_split(b, pos, enc_links(ls), enc_u64(from) + enc_u64(to));
    } else {
        assert(b.subrange(pos, pos) =~= Seq::<u8>::empty());
    }
}

/// The file format is canonical: bytes that have the shape of a database
/// file are the encoding of what they hold, and of nothing else.
pub proof fn lemma_encode_parse(b: Seq<u8>)
    requires
        parse(b) is Some,
    ensures
        encode(parse(b).unwrap()) == b,
        layout_fits(parse(b).unwrap()),
        forall|i: int|
            0 <= i < parse(b).unwrap().partitions.len() ==> partition_shaped(
                #[trigger] parse(b).unwrap().partitions[i],
                parse(b).unwrap().dim,
            ),
{
    let l = parse(b).unwrap();
    let (dim, at1) = dec_u64(b, 8).unwrap();
    let (np, at2) = dec_u64(b, at1).unwrap();
    let (partitions, at3) = dec_partitions(b, at2, np as nat, dim as nat).unwrap();
    let (nl, at4) = dec_u64(b, at3).unwrap();
    let (links, at5) = dec_links(b, at4, nl as nat).unwrap();
    lemma_enc_u64(b, 8);
    lemma_enc_u64(b, at1);
    lemma_enc_partitions(b, at2, np as nat, dim as nat);
    lemma_enc_u64(b, at3);
    lemma_enc_links(b, at4, nl as nat);
    let f1 = magic();
    let f2 = enc_u64(dim);
    let f3 = enc_u64(np);
    let f4 = enc_partitions(partitions);
    let f5 = enc_u64(nl);
    let f6 = enc_links(links);
    lemma_at_split(b, 0, f1, f2);
    lemma_at_split(b, 0, f1 + f2, f3);
    lemma_at_split(b, 0, f1 + f2 + f3, f4);
    lemma_at_split(b, 0, f1 + f2 + f3 + f4, f5);
    lemma_at_split(b, 0, f1 + f2 + f3 + f4 + f5, f6);
    assert(b.subrange(0, b.len() as int) =~= b);
}

/// Bytes that decode are the encoding of the database that they hold.
pub proof fn lemma_encode_decode(b: Seq<u8>)
    requires
        decode(b) is Some,
    ensures
        encode(decode(b).unwrap()) == b,
        layout_fits(decode(b).unwrap()),
        decode(b).unwrap().wf(),
        decode(b).unwrap().dim <= usize::MAX,
{
    lemma_encode_parse(b);
}

/// Appends an embedding.
pub fn write_embedding(out: &mut Vec<u8>, v: &Vec<u32>)
    ensures
        final(out)@ == old(out)@ + enc_embedding(v@),
{
    let mut i: usize = 0;
    proof {
        assert(v@.take(0) =~= Seq::<u32>::empty());
        assert(out@ =~= old(out)@ + enc_embedding(v@.take(0)));
    }
    while i < v.len()
        invariant
            i <= v@.len(),
            out@ == old(out)@ + enc_embedding(v@.take(i as int)),
        decreases v@.len() - i,
    {
        let ghost before = out@;
        write_u32(out, v[i]);
        proof {
            let t = v@.take(i + 1);
            assert(t.drop_last() =~= v@.take(i as int));
            assert(t.last() == v@[i as int]);
            assert(out@ =~= old(out)@ + enc_embedding(t));
        }
        i += 1;
    }
    proof {
        assert(v@.take(i as int) =~= v@);
    }
}

/// Appends an entry.
pub fn write_entry(out: &mut Vec<u8>, e: &Entry)
    ensures
        final(out)@ == old(out)@ + enc_entry(e@),
        entry_fits(e@),
{
    write_u64(out, e.id);
    write_u64(out, to_bits(e.timestamp));
    write_u32(out, e.importance);
    out.push(e.context_type);
    let ghost mid = out@;
    write_opt_text(
        out,
        match &e.source {
            Some(s) => Some(s.as_str()),
            None => None,
        },
    );
    write_opt_text(
        out,
        match &e.content {
            Some(s) => Some(s.as_str()),
            None => None,
        },
    );
    write_embedding(out, &e.embedding);
    proof {
        assert(mid =~= old(out)@ + (enc_u64(e.id) + enc_u64(i64_bits(e.timestamp)) + enc_u32(
            e.importance,
        ) + seq![e.context_type]));
        assert(out@ =~= old(out)@ + enc_entry(e@));
    }
}

/// Appends the entries of a partition.
pub fn write_entries(out: &mut Vec<u8>, es: &Vec<Entry>)
    ensures
        final(out)@ == old(out)@ + enc_entries(entry_views(es@)),
        forall|i: int| 0 <= i < es@.len() ==> entry_fits(#[trigger] entry_views(es@)[i]),
{
    let ghost views = entry_views(es@);
    let mut i: usize = 0;
    proof {
        assert(views.take(0) =~= Seq::<EntryView>::empty());
        assert(out@ =~= old(out)@ + enc_entries(views.take(0)));
    }
    while i < es.len()
        invariant
            i <= es@.len(),
            views == entry_views(es@),
            out@ == old(out)@ + enc_entries(views.take(i as int)),
            forall|j: int| 0 <= j < i ==> entry_fits(#[trigger] views[j]),
        decreases es@.len() - i,
    {
        write_entry(out, &es[i]);
        proof {
            let t = views.take(i + 1);
            assert(t.drop_last() =~= views.take(i as int));
            assert(t.last() == es@[i as int]@);
            assert(out@ =~= old(out)@ + enc_entries(t));
        }
        i += 1;
    }
    proof {
        assert(views.take(i as int) =~= views);
    }
}

/// Appends a partition.
pub fn write_partition(out: &mut Vec<u8>, p: &Partition)
    ensures
        final(out)@ == old(out)@ + enc_partition(p@),
        partition_fits(p@),
{
    write_text(out, p.modality.as_str());
    write_u64(out, p.entries.len() as u64);
    write_entries(out, &p.entries);
    proof {
        assert(out@ =~= old(out)@ + enc_partition(p@));
    }
}

/// Appends the partitions.
pub fn write_partitions(out: &mut Vec<u8>, ps: &Vec<Partition>)
    ensures
        final(out)@ == old(out)@ + enc_partitions(partition_views(ps@)),
        forall|i: int| 0 <= i < ps@.len() ==> partition_fits(#[trigger] partition_views(ps@)[i]),
{
    let ghost views = partition_views(ps@);
    let mut i: usize = 0;
    proof {
        assert(views.take(0) =~= Seq::<PartitionView>::empty());
        assert(out@ =~= old(out)@ + enc_partitions(views.take(0)));
    }
    while i < ps.len()
        invariant
            i <= ps@.len(),
            views == partition_views(ps@),
            out@ == old(out)@ + enc_partitions(views.take(i as int)),
            forall|j: int| 0 <= j < i ==> partition_fits(#[trigger] views[j]),
        decreases ps@.len() - i,
    {
        write_partition(out, &ps[i]);
        proof {
            let t = views.take(i + 1);
            assert(t.drop_last() =~= views.take(i as int));
            assert(t.last() == ps@[i as int]@);
            assert(out@ =~= old(out)@ + enc_partitions(t));
        }
        i += 1;
    }
    proof {
        assert(views.take(i as int) =~= views);
    }
}

/// Appends the edges.
pub fn write_links(out: &mut Vec<u8>, ls: &Vec<(u64, u64)>)
    ensures
        final(out)@ == old(out)@ + enc_links(ls@),
{
    let mut i: usize = 0;
    proof {
        assert(ls@.take(0) =~= Seq::<(u64, u64)>::empty());
        assert(out@ =~= old(out)@ + enc_links(ls@.take(0)));
    }
    while i < ls.len()
        invariant
            i <= ls@.len(),
            out@ == old(out)@ + enc_links(ls@.take(i as int)),
        decreases ls@.len() - i,
    {
        let edge: (u64, u64) = ls[i];
        write_u64(out, edge.0);
        write_u64(out, edge.1);
        proof {
            let t = ls@.take(i + 1);
            assert(t.drop_last() =~= ls@.take(i as int));
            assert(t.last() == edge);
            assert(out@ =~= old(out)@ + enc_links(t));
        }
        i += 1;
    }
    proof {
        assert(ls@.take(i as int) =~= ls@);
    }
}

/// The bytes of the database's file. Reading them back gives the database
/// as it is now.
pub fn serialize(db: &DB) -> (bytes: Vec<u8>)
    requires
        db.wf(),
    ensures
        bytes@ == encode(db.layout()),
        layout_fits(db.layout()),
        decode(bytes@) == Some(db.layout()),
{
    let mut out: Vec<u8> = Vec::new();
    out.push(0x46u8);
    out.push(0x45u8);
    out.push(0x41u8);
    out.push(0x54u8);
    out.push(0x48u8);
    out.push(0x45u8);
    out.push(0x52u8);
    out.push(0x01u8);
    proof {
        assert(out@ =~= magic());
    }
    write_u64(&mut out, db.dim() as u64);
    let parts = db.partitions();
    write_u64(&mut out, parts.len() as u64);
    write_partitions(&mut out, parts);
    let links = db.links().edges();
    write_u64(&mut out, links.len() as u64);
    write_links(&mut out, links);
    proof {
        assert(out@ =~= encode(db.layout()));
        lemma_decode_encode(db.layout());
    }
    out
}

} // verus!
