//! Reading a database back from its bytes, and opening and saving.
//!
//! Reading is done in two steps. The first follows the shape of the file and
//! stops at the first field that is cut short or malformed. The second holds
//! what was read to the invariant of a database: identifiers ascend within a
//! partition, no two partitions are of one modality, the edges ascend. Bytes
//! that fail either step are corrupt; no partial database is ever returned.

use crate::codec::{
    dec_embedding, dec_entries, dec_entry, dec_links, dec_partition, dec_partitions, decode,
    encode, lemma_encode_parse, magic, parse, partition_shaped, serialize,
};
use crate::entry::{Entry, EntryView};
use crate::error::DbError;
use crate::format::{at, from_bits, read_opt_text, read_text, read_u32, read_u64, read_u8};
use crate::links::{edge_lt, edges_ascending, LinkGraph};
use crate::store::{
    entry_views, partition_views, partition_wf, Layout, Partition, PartitionView, DB,
};
use crate::text::str_eq;
use vstd::prelude::*;
use vstd::string::*;

verus! {

/// Once a component is missing, no longer embedding can be read.
pub proof fn lemma_embedding_stops(b: Seq<u8>, pos: int, m: nat, n: nat)
    requires
        m <= n,
        dec_embedding(b, pos, m) is None,
    ensures
        dec_embedding(b, pos, n) is None,
    decreases n,
{
    if m < n {
        lemma_embedding_stops(b, pos, m, (n - 1) as nat);
    }
}

/// Once an entry cannot be read, no longer run of entries can be read.
pub proof fn lemma_entries_stop(b: Seq<u8>, pos: int, m: nat, n: nat, dim: nat, modality: Seq<char>)
    requires
        m <= n,
        dec_entries(b, pos, m, dim, modality) is None,
    ensures
        dec_entries(b, pos, n, dim, modality) is None,
    decreases n,
{
    if m < n {
        lemma_entries_stop(b, pos, m, (n - 1) as nat, dim, modality);
    }
}

/// Once a partition cannot be read, no longer run of partitions can be read.
pub proof fn lemma_partitions_stop(b: Seq<u8>, pos: int, m: nat, n: nat, dim: nat)
    requires
        m <= n,
        dec_partitions(b, pos, m, dim) is None,
    ensures
        dec_partitions(b, pos, n, dim) is None,
    decreases n,
{
    if m < n {
        lemma_partitions_stop(b, pos, m, (n - 1) as nat, dim);
    }
}

/// Once an edge cannot be read, no longer run of edges can be read.
pub proof fn lemma_links_stop(b: Seq<u8>, pos: int, m: nat, n: nat)
    requires
        m <= n,
        dec_links(b, pos, m) is None,
    ensures
        dec_links(b, pos, n) is None,
    decreases n,
{
    if m < n {
        lemma_links_stop(b, pos, m, (n - 1) as nat);
    }
}

/// Reads an embedding of `dim` components at `pos`.
pub fn read_embedding(bytes: &[u8], pos: usize, dim: usize) -> (r: Option<(Vec<u32>, usize)>)
    ensures
        match r {
            Some((v, next)) => dec_embedding(bytes@, pos as int, dim as nat) == Some(
                (v@, next as int),
            ),
            None => dec_embedding(bytes@, pos as int, dim as nat) is None,
        },
{
    let mut out: Vec<u32> = Vec::new();
    let mut p: usize = pos;
    let mut i: usize = 0;
    while i < dim
        invariant
            i <= dim,
            dec_embedding(bytes@, pos as int, i as nat) == Some((out@, p as int)),
        decreases dim - i,
    {
        match read_u32(bytes, p) {
            Some((x, q)) => {
                out.push(x);
                p = q;
            },
            None => {
                proof {
                    lemma_embedding_stops(bytes@, pos as int, (i + 1) as nat, dim as nat);
                }
                return None;
            },
        }
        i += 1;
    }
    Some((out, p))
}

/// Reads an entry of the modality `modality` at `pos`.
pub fn read_entry(bytes: &[u8], pos: usize, dim: usize, modality: &str) -> (r: Option<
    (Entry, usize),
>)
    ensures
        match r {
            Some((e, next)) => dec_entry(bytes@, pos as int, dim as nat, modality@) == Some(
                (e@, next as int),
            ),
            None => dec_entry(bytes@, pos as int, dim as nat, modality@) is None,
        },
{
    let (id, at1) = match read_u64(bytes, pos) {
        Some(v) => v,
        None => {
            return None;
        },
    };
    let (ts, at2) = match read_u64(bytes, at1) {
        Some(v) => v,
        None => {
            return None;
        },
    };
    let (importance, at3) = match read_u32(bytes, at2) {
        Some(v) => v,
        None => {
            return None;
        },
    };
    let (context_type, at4) = match read_u8(bytes, at3) {
        Some(v) => v,
        None => {
            return None;
        },
    };
    let (source, at5) = match read_opt_text(bytes, at4) {
        Some(v) => v,
        None => {
            return None;
        },
    };
    let (content, at6) = match read_opt_text(bytes, at5) {
        Some(v) => v,
        None => {
            return None;
        },
    };
    let (embedding, at7) = match read_embedding(bytes, at6, dim) {
        Some(v) => v,
        None => {
            return None;
        },
    };
    let entry = Entry {
        id,
        embedding,
        timestamp: from_bits(ts),
        importance,
        context_type,
        source,
        content,
        modality: modality.to_owned(),
    };
    Some((entry, at7))
}

/// Reads `n` entries of the modality `modality` at `pos`.
pub fn read_entries(bytes: &[u8], pos: usize, n: u64, dim: usize, modality: &str) -> (r: Option<
    (Vec<Entry>, usize),
>)
    ensures
        match r {
            Some((es, next)) => dec_entries(bytes@, pos as int, n as nat, dim as nat, modality@)
                == Some((entry_views(es@), next as int)),
            None => dec_entries(bytes@, pos as int, n as nat, dim as nat, modality@) is None,
        },
{
    let mut out: Vec<Entry> = Vec::new();
    let mut p: usize = pos;
    let mut i: u64 = 0;
    proof {
        assert(entry_views(out@) =~= Seq::<EntryView>::empty());
    }
    while i < n
        invariant
            i <= n,
            dec_entries(bytes@, pos as int, i as nat, dim as nat, modality@) == Some(
                (entry_views(out@), p as int),
            ),
        decreases n - i,
    {
        match read_entry(bytes, p, dim, modality) {
            Some((e, q)) => {
                let ghost before = out@;
                let ghost ev = e@;
                out.push(e);
                p = q;
                proof {
                    assert(entry_views(out@) =~= entry_views(before).push(ev));
                }
            },
            None => {
                proof {
                    lemma_entries_stop(
                        bytes@,
                        pos as int,
                        (i + 1) as nat,
                        n as nat,
                        dim as nat,
                        modality@,
                    );
                }
                return None;
            },
        }
        i += 1;
    }
    Some((out, p))
}

/// Reads a partition at `pos`.
pub fn read_partition(bytes: &[u8], pos: usize, dim: usize) -> (r: Option<(Partition, usize)>)
    ensures
        match r {
            Some((part, next)) => dec_partition(bytes@, pos as int, dim as nat) == Some(
                (part@, next as int),
            ),
            None => dec_partition(bytes@, pos as int, dim as nat) is None,
        },
{
    let (modality, at1) = match read_text(bytes, pos) {
        Some(v) => v,
        None => {
            return None;
        },
    };
    let (n, at2) = match read_u64(bytes, at1) {
        Some(v) => v,
        None => {
            return None;
        },
    };
    let (entries, at3) = match read_entries(bytes, at2, n, dim, modality.as_str()) {
        Some(v) => v,
        None => {
            return None;
        },
    };
    Some((Partition { modality, entries }, at3))
}

/// Reads `n` partitions at `pos`.
pub fn read_partitions(bytes: &[u8], pos: usize, n: u64, dim: usize) -> (r: Option<
    (Vec<Partition>, usize),
>)
    ensures
        match r {
            Some((ps, next)) => dec_partitions(bytes@, pos as int, n as nat, dim as nat) == Some(
                (partition_views(ps@), next as int),
            ),
            None => dec_partitions(bytes@, pos as int, n as nat, dim as nat) is None,
        },
{
    let mut out: Vec<Partition> = Vec::new();
    let mut p: usize = pos;
    let mut i: u64 = 0;
    proof {
        assert(partition_views(out@) =~= Seq::<PartitionView>::empty());
    }
    while i < n
        invariant
            i <= n,
            dec_partitions(bytes@, pos as int, i as nat, dim as nat) == Some(
                (partition_views(out@), p as int),
            ),
        decreases n - i,
    {
        match read_partition(bytes, p, dim) {
            Some((part, q)) => {
                let ghost before = out@;
                let ghost pv = part@;
                out.push(part);
                p = q;
                proof {
                    assert(partition_views(out@) =~= partition_views(before).push(pv));
                }
            },
            None => {
                proof {
                    lemma_partitions_stop(bytes@, pos as int, (i + 1) as nat, n as nat, dim as nat);
                }
                return None;
            },
        }
        i += 1;
    }
    Some((out, p))
}

/// Reads `n` edges at `pos`.
pub fn read_links(bytes: &[u8], pos: usize, n: u64) -> (r: Option<(Vec<(u64, u64)>, usize)>)
    ensures
        match r {
            Some((ls, next)) => dec_links(bytes@, pos as int, n as nat) == Some(
                (ls@, next as int),
            ),
            None => dec_links(bytes@, pos as int, n as nat) is None,
        },
{
    let mut out: Vec<(u64, u64)> = Vec::new();
    let mut p: usize = pos;
    let mut i: u64 = 0;
    while i < n
        invariant
            i <= n,
            dec_links(bytes@, pos as int, i as nat) == Some((out@, p as int)),
        decreases n - i,
    {
        let edge = match read_u64(bytes, p) {
            Some((from, q)) => match read_u64(bytes, q) {
                Some((to, r)) => Some((from, to, r)),
                None => None,
            },
            None => None,
        };
        match edge {
            Some((from, to, r)) => {
                out.push((from, to));
                p = r;
            },
            None => {
                proof {
                    lemma_links_stop(bytes@, pos as int, (i + 1) as nat, n as nat);
                }
                return None;
            },
        }
        i += 1;
    }
    Some((out, p))
}

/// Whether the identifiers of the entries ascend.
pub fn ids_ascend(es: &Vec<Entry>) -> (r: bool)
    ensures
        r == (forall|i: int, j: int| 0 <= i < j < es@.len() ==> es@[i].id < es@[j].id),
{
    let mut i: usize = 1;
    while i < es.len()
        invariant
            1 <= i,
            forall|x: int, y: int| 0 <= x < y < i && y < es@.len() ==> es@[x].id < es@[y].id,
        decreases es@.len() - i,
    {
        if es[i - 1].id >= es[i].id {
            return false;
        }
        proof {
            assert forall|x: int, y: int| 0 <= x < y < i + 1 && y < es@.len() implies es@[x].id
                < es@[y].id by {
                if y == i && x < i - 1 {
                    assert(es@[x].id < es@[i - 1].id);
                }
            }
        }
        i += 1;
    }
    true
}

/// Whether the edges ascend.
pub fn edges_ascend(ls: &Vec<(u64, u64)>) -> (r: bool)
    ensures
        r == edges_ascending(ls@),
{
    let mut i: usize = 1;
    while i < ls.len()
        invariant
            1 <= i,
            forall|x: int, y: int| 0 <= x < y < i && y < ls@.len() ==> edge_lt(ls@[x], ls@[y]),
        decreases ls@.len() - i,
    {
        let a: (u64, u64) = ls[i - 1];
        let b: (u64, u64) = ls[i];
        if !(a.0 < b.0 || (a.0 == b.0 && a.1 < b.1)) {
            proof {
                assert(!edge_lt(ls@[i - 1], ls@[i as int]));
            }
            return false;
        }
        proof {
            assert forall|x: int, y: int| 0 <= x < y < i + 1 && y < ls@.len() implies edge_lt(
                ls@[x],
                ls@[y],
            ) by {
                if y == i && x < i - 1 {
                    assert(edge_lt(ls@[x], ls@[i - 1]));
                }
            }
        }
        i += 1;
    }
    true
}

/// Whether every partition has ascending identifiers and a modality of its
/// own.
pub fn partitions_valid(ps: &Vec<Partition>) -> (r: bool)
    ensures
        r == {
            &&& forall|p: int, i: int, j: int|
                0 <= p < ps@.len() && 0 <= i < j < ps@[p].entries@.len() ==> ps@[p].entries@[i].id
                    < ps@[p].entries@[j].id
            &&& forall|p: int, q: int|
                0 <= p < q < ps@.len() ==> ps@[p].modality@ != ps@[q].modality@
        },
{
    let mut q: usize = 0;
    while q < ps.len()
        invariant
            q <= ps@.len(),
            forall|p: int, i: int, j: int|
                0 <= p < q && 0 <= i < j < ps@[p].entries@.len() ==> ps@[p].entries@[i].id
                    < ps@[p].entries@[j].id,
            forall|a: int, b: int| 0 <= a < b < q ==> ps@[a].modality@ != ps@[b].modality@,
        decreases ps@.len() - q,
    {
        if !ids_ascend(&ps[q].entries) {
            return false;
        }
        let mut p: usize = 0;
        while p < q
            invariant
                p <= q < ps@.len(),
                forall|a: int| 0 <= a < p ==> ps@[a].modality@ != ps@[q as int].modality@,
            decreases q - p,
        {
            if str_eq(ps[p].modality.as_str(), ps[q].modality.as_str()) {
                return false;
            }
            p += 1;
        }
        q += 1;
    }
    true
}

/// The database that the bytes hold.
///
/// Succeeds exactly on the bytes that [`decode`] accepts: those that have
/// the shape of a database file and hold a well-formed database. Every other
/// input, a truncated one included, is reported as corrupt.
pub fn deserialize(bytes: &[u8]) -> (r: Result<DB, DbError>)
    ensures
        match r {
            Ok(db) => db.wf() && decode(bytes@) == Some(db.layout()) && encode(db.layout())
                == bytes@,
            Err(e) => e == DbError::CorruptData && decode(bytes@) is None,
        },
{
    if bytes.len() < 8 || bytes[0] != 0x46 || bytes[1] != 0x45 || bytes[2] != 0x41 || bytes[3]
        != 0x54 || bytes[4] != 0x48 || bytes[5] != 0x45 || bytes[6] != 0x52 || bytes[7] != 0x01 {
        proof {
            if at(bytes@, 0, magic()) {
                let s = bytes@.subrange(0, 8);
                assert(s[0] == bytes@[0] && s[1] == bytes@[1] && s[2] == bytes@[2] && s[3]
                    == bytes@[3]);
                assert(s[4] == bytes@[4] && s[5] == bytes@[5] && s[6] == bytes@[6] && s[7]
                    == bytes@[7]);
            }
        }
        return Err(DbError::CorruptData);
    }
    proof {
        assert(bytes@.subrange(0, 8) =~= magic());
    }
    let (dim64, at1) = match read_u64(bytes, 8) {
        Some(v) => v,
        None => {
            return Err(DbError::CorruptData);
        },
    };
    let (np, at2) = match read_u64(bytes, at1) {
        Some(v) => v,
        None => {
            return Err(DbError::CorruptData);
        },
    };
    if dim64 > usize::MAX as u64 {
        return Err(DbError::CorruptData);
    }
    let dim: usize = dim64 as usize;
    let (partitions, at3) = match read_partitions(bytes, at2, np, dim) {
        Some(v) => v,
        None => {
            return Err(DbError::CorruptData);
        },
    };
    let (nl, at4) = match read_u64(bytes, at3) {
        Some(v) => v,
        None => {
            return Err(DbError::CorruptData);
        },
    };
    let (links, at5) = match read_links(bytes, at4, nl) {
        Some(v) => v,
        None => {
            return Err(DbError::CorruptData);
        },
    };
    if at5 != bytes.len() {
        return Err(DbError::CorruptData);
    }
    let ghost l = Layout { dim: dim as nat, partitions: partition_views(partitions@), links: links@ };
    proof {
        assert(parse(bytes@) == Some(l));
        lemma_encode_parse(bytes@);
    }
    let valid: bool = partitions_valid(&partitions) && edges_ascend(&links);
    proof {
        let ps = partitions@;
        if valid {
            assert forall|p: int| 0 <= p < l.partitions.len() implies partition_wf(
                #[trigger] l.partitions[p],
                l.dim,
            ) by {
                assert(partition_shaped(l.partitions[p], l.dim));
                let es = l.partitions[p].entries;
                assert forall|i: int, j: int| 0 <= i < j < es.len() implies es[i].id
                    < es[j].id by {
                    assert(ps[p].entries@[i].id < ps[p].entries@[j].id);
                }
            }
            assert forall|p: int, q: int| 0 <= p < q < l.partitions.len() implies (
            #[trigger] l.partitions[p]).modality != (#[trigger] l.partitions[q]).modality by {
                assert(ps[p].modality@ != ps[q].modality@);
            }
            assert(l.wf());
        } else if l.wf() {
            assert forall|p: int, i: int, j: int|
                0 <= p < ps.len() && 0 <= i < j < ps[p].entries@.len() implies ps[p].entries@[i].id
                < ps[p].entries@[j].id by {
                assert(partition_wf(l.partitions[p], l.dim));
                assert(l.partitions[p].entries[i].id < l.partitions[p].entries[j].id);
            }
            assert forall|p: int, q: int| 0 <= p < q < ps.len() implies ps[p].modality@
                != ps[q].modality@ by {
                assert(l.partitions[p].modality != l.partitions[q].modality);
            }
            assert(false);
        }
    }
    if !valid {
        return Err(DbError::CorruptData);
    }
    Ok(DB::from_parts(dim, partitions, LinkGraph::from_ordered(links)))
}

/// The bytes of an optional byte slice.
pub open spec fn opt_bytes_view(o: Option<&[u8]>) -> Option<Seq<u8>> {
    match o {
        Some(b) => Some(b@),
        None => None,
    }
}

/// What opening gives: with nothing stored, an empty database of the
/// dimension asked for; with stored bytes, the database that they hold,
/// provided that the dimension asked for is zero, which adopts the stored
/// one, or equal to the stored one.
pub open spec fn open_spec(stored: Option<Seq<u8>>, dim: nat) -> Option<Layout> {
    match stored {
        None => Some(Layout::empty(dim)),
        Some(b) => match decode(b) {
            Some(l) => if dim == 0 || l.dim == dim {
                Some(l)
            } else {
                None
            },
            None => None,
        },
    }
}

impl DB {
    /// Opens a database from what is stored at its path: `None` if nothing is
    /// stored there yet, the file's bytes otherwise. A `dim` of zero adopts
    /// the stored dimension.
    ///
    /// Fails if the stored bytes are not a valid database, or if `dim` is
    /// neither zero nor the stored dimension.
    pub fn open(stored: Option<&[u8]>, dim: usize) -> (r: Result<DB, DbError>)
        ensures
            match r {
                Ok(db) => db.wf() && open_spec(opt_bytes_view(stored), dim as nat) == Some(
                    db.layout(),
                ),
                Err(e) => e == DbError::OpenError && open_spec(opt_bytes_view(stored), dim as nat)
                    is None,
            },
    {
        match stored {
            None => Ok(DB::new(dim)),
            Some(bytes) => match deserialize(bytes) {
                Ok(db) => if dim == 0 || db.dim() == dim {
                    Ok(db)
                } else {
                    Err(DbError::OpenError)
                },
                Err(_) => Err(DbError::OpenError),
            },
        }
    }

    /// The bytes to store at the database's path. Nothing is written here,
    /// and nothing is saved unless these bytes are stored: opening from them
    /// gives the database as it is now.
    pub fn save(&self) -> (bytes: Vec<u8>)
        requires
            self.wf(),
        ensures
            bytes@ == encode(self.layout()),
            decode(bytes@) == Some(self.layout()),
            open_spec(Some(bytes@), 0) == Some(self.layout()),
            open_spec(Some(bytes@), self@.dim) == Some(self.layout()),
    {
        serialize(self)
    }
}

} // verus!
