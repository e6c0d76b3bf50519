//! The table of entries, the dimension contract and the link graph.

use crate::entry::{default_modality, Entry, EntryView};
use crate::error::DbError;
use crate::links::{edges_ascending, ids_ascending, LinkGraph};
use crate::text::{opt_str_view, opt_to_owned, str_eq};
use vstd::prelude::*;
use vstd::slice::*;
use vstd::string::*;

verus! {

/// The entries of one modality, in ascending order of their identifiers.
#[derive(Debug)]
pub struct Partition {
    pub modality: String,
    pub entries: Vec<Entry>,
}

/// What a [`Partition`] holds, as mathematical values.
pub ghost struct PartitionView {
    pub modality: Seq<char>,
    pub entries: Seq<EntryView>,
}

/// The views of a sequence of entries.
pub open spec fn entry_views(es: Seq<Entry>) -> Seq<EntryView> {
    es.map_values(|e: Entry| e@)
}

impl View for Partition {
    type V = PartitionView;

    open spec fn view(&self) -> PartitionView {
        PartitionView { modality: self.modality@, entries: entry_views(self.entries@) }
    }
}

/// The views of a sequence of partitions.
pub open spec fn partition_views(ps: Seq<Partition>) -> Seq<PartitionView> {
    ps.map_values(|p: Partition| p@)
}

/// A database as it is laid out in memory and in a file: the partitions in
/// the order in which they were created, each with its entries in ascending
/// order, and the edges in ascending order.
pub ghost struct Layout {
    pub dim: nat,
    pub partitions: Seq<PartitionView>,
    pub links: Seq<(u64, u64)>,
}

/// A database as its users see it: the dimension, the entry under each pair
/// of modality and identifier, and the set of edges.
pub ghost struct DbView {
    pub dim: nat,
    pub entries: Map<(Seq<char>, u64), EntryView>,
    pub links: Set<(u64, u64)>,
}

/// The entries of a partition are of its modality and of the database's
/// dimension, and their identifiers ascend.
pub open spec fn partition_wf(p: PartitionView, dim: nat) -> bool {
    &&& forall|i: int, j: int| 0 <= i < j < p.entries.len() ==> p.entries[i].id < p.entries[j].id
    &&& forall|i: int|
        0 <= i < p.entries.len() ==> (#[trigger] p.entries[i]).modality == p.modality
            && p.entries[i].embedding.len() == dim
}

/// Entry `i` of partition `p` is the one stored under the key `k`.
pub open spec fn slot_has(parts: Seq<PartitionView>, p: int, i: int, k: (Seq<char>, u64)) -> bool {
    &&& 0 <= p < parts.len()
    &&& 0 <= i < parts[p].entries.len()
    &&& parts[p].modality == k.0
    &&& parts[p].entries[i].id == k.1
}

impl Layout {
    /// Every partition is well formed, no two partitions are of the same
    /// modality, and the edges ascend.
    pub open spec fn wf(self) -> bool {
        &&& forall|p: int|
            0 <= p < self.partitions.len() ==> partition_wf(#[trigger] self.partitions[p], self.dim)
        &&& forall|p: int, q: int|
            0 <= p < q < self.partitions.len() ==> (#[trigger] self.partitions[p]).modality != (
            #[trigger] self.partitions[q]).modality
        &&& edges_ascending(self.links)
    }

    /// The entry under each pair of modality and identifier.
    pub open spec fn entries(self) -> Map<(Seq<char>, u64), EntryView> {
        Map::new(
            |k: (Seq<char>, u64)| exists|p: int, i: int| slot_has(self.partitions, p, i, k),
            |k: (Seq<char>, u64)|
                {
                    let (p, i) = choose|p: int, i: int| slot_has(self.partitions, p, i, k);
                    self.partitions[p].entries[i]
                },
        )
    }

    /// The layout of a database without entries and edges.
    pub open spec fn empty(dim: nat) -> Layout {
        Layout { dim, partitions: Seq::empty(), links: Seq::empty() }
    }
}

impl View for Layout {
    type V = DbView;

    open spec fn view(&self) -> DbView {
        DbView { dim: self.dim, entries: self.entries(), links: self.links.to_set() }
    }
}

/// In a well-formed layout a key is stored in one place at most.
pub proof fn lemma_slot_unique(l: Layout, p: int, i: int, q: int, j: int, k: (Seq<char>, u64))
    requires
        l.wf(),
        slot_has(l.partitions, p, i, k),
        slot_has(l.partitions, q, j, k),
    ensures
        p == q,
        i == j,
{
    if p < q {
        assert(l.partitions[p].modality != l.partitions[q].modality);
    } else if q < p {
        assert(l.partitions[q].modality != l.partitions[p].modality);
    } else {
        assert(partition_wf(l.partitions[p], l.dim));
    }
}

/// The entry in a slot of a well-formed layout is the one that the view holds
/// under the slot's key.
pub proof fn lemma_entry_at(l: Layout, p: int, i: int)
    requires
        l.wf(),
        0 <= p < l.partitions.len(),
        0 <= i < l.partitions[p].entries.len(),
    ensures
        l.entries().contains_key((l.partitions[p].modality, l.partitions[p].entries[i].id)),
        l.entries()[(l.partitions[p].modality, l.partitions[p].entries[i].id)]
            == l.partitions[p].entries[i],
{
    let k = (l.partitions[p].modality, l.partitions[p].entries[i].id);
    assert(slot_has(l.partitions, p, i, k));
    let (q, j) = choose|q: int, j: int| slot_has(l.partitions, q, j, k);
    lemma_slot_unique(l, p, i, q, j, k);
}

/// A first entry of a new modality: the layout gets one more partition.
pub proof fn lemma_add_partition(a: Layout, b: Layout, e: EntryView)
    requires
        a.wf(),
        b.dim == a.dim,
        b.links == a.links,
        e.embedding.len() == a.dim,
        forall|p: int|
            0 <= p < a.partitions.len() ==> (#[trigger] a.partitions[p]).modality != e.modality,
        b.partitions == a.partitions.push(PartitionView { modality: e.modality, entries: seq![e] }),
    ensures
        b.wf(),
        b.entries() == a.entries().insert((e.modality, e.id), e),
{
    let k0 = (e.modality, e.id);
    let n = a.partitions.len() as int;
    assert(b.wf()) by {
        assert forall|p: int| 0 <= p < b.partitions.len() implies partition_wf(
            #[trigger] b.partitions[p],
            b.dim,
        ) by {
            if p < n {
                assert(b.partitions[p] == a.partitions[p]);
            }
        }
        assert forall|p: int, q: int| 0 <= p < q < b.partitions.len() implies (
        #[trigger] b.partitions[p]).modality != (#[trigger] b.partitions[q]).modality by {
            assert(b.partitions[p] == a.partitions[p]);
            if q < n {
                assert(b.partitions[q] == a.partitions[q]);
            }
        }
    }
    assert forall|k: (Seq<char>, u64)|
        b.entries().contains_key(k) <==> (k == k0 || a.entries().contains_key(k)) by {
        if b.entries().contains_key(k) {
            let (p, i) = choose|p: int, i: int| slot_has(b.partitions, p, i, k);
            if p < n {
                assert(slot_has(a.partitions, p, i, k));
            }
        }
        if a.entries().contains_key(k) {
            let (p, i) = choose|p: int, i: int| slot_has(a.partitions, p, i, k);
            assert(slot_has(b.partitions, p, i, k));
        }
        if k == k0 {
            assert(slot_has(b.partitions, n, 0, k));
        }
    }
    assert forall|k: (Seq<char>, u64)| b.entries().contains_key(k) implies b.entries()[k]
        == a.entries().insert(k0, e)[k] by {
        let (p, i) = choose|p: int, i: int| slot_has(b.partitions, p, i, k);
        lemma_entry_at(b, p, i);
        if p < n {
            assert(b.partitions[p] == a.partitions[p]);
            lemma_entry_at(a, p, i);
        }
    }
    assert(b.entries() =~= a.entries().insert(k0, e));
}

/// An entry under a key that is taken: the new entry replaces the old one.
pub proof fn lemma_replace_entry(a: Layout, b: Layout, p: int, i: int, e: EntryView)
    requires
        a.wf(),
        b.dim == a.dim,
        b.links == a.links,
        e.embedding.len() == a.dim,
        0 <= p < a.partitions.len(),
        0 <= i < a.partitions[p].entries.len(),
        a.partitions[p].modality == e.modality,
        a.partitions[p].entries[i].id == e.id,
        b.partitions == a.partitions.update(
            p,
            PartitionView { modality: e.modality, entries: a.partitions[p].entries.update(i, e) },
        ),
    ensures
        b.wf(),
        b.entries() == a.entries().insert((e.modality, e.id), e),
{
    let k0 = (e.modality, e.id);
    let old_entries = a.partitions[p].entries;
    let new_entries = b.partitions[p].entries;
    assert(partition_wf(a.partitions[p], a.dim));
    assert(b.wf()) by {
        assert forall|q: int| 0 <= q < b.partitions.len() implies partition_wf(
            #[trigger] b.partitions[q],
            b.dim,
        ) by {
            if q != p {
                assert(b.partitions[q] == a.partitions[q]);
            } else {
                assert forall|x: int, y: int| 0 <= x < y < new_entries.len() implies new_entries[x].id
                    < new_entries[y].id by {
                    assert(old_entries[x].id < old_entries[y].id);
                }
                assert forall|x: int| 0 <= x < new_entries.len() implies (
                #[trigger] new_entries[x]).modality == b.partitions[p].modality
                    && new_entries[x].embedding.len() == b.dim by {
                    if x != i {
                        assert(new_entries[x] == old_entries[x]);
                    }
                }
            }
        }
        assert forall|q: int, r: int| 0 <= q < r < b.partitions.len() implies (
        #[trigger] b.partitions[q]).modality != (#[trigger] b.partitions[r]).modality by {
            assert(b.partitions[q].modality == a.partitions[q].modality);
            assert(b.partitions[r].modality == a.partitions[r].modality);
        }
    }
    assert forall|k: (Seq<char>, u64)|
        b.entries().contains_key(k) <==> (k == k0 || a.entries().contains_key(k)) by {
        if b.entries().contains_key(k) {
            let (q, j) = choose|q: int, j: int| slot_has(b.partitions, q, j, k);
            assert(slot_has(a.partitions, q, j, k));
        }
        if a.entries().contains_key(k) {
            let (q, j) = choose|q: int, j: int| slot_has(a.partitions, q, j, k);
            assert(slot_has(b.partitions, q, j, k));
        }
        if k == k0 {
            assert(slot_has(b.partitions, p, i, k));
        }
    }
    assert forall|k: (Seq<char>, u64)| b.entries().contains_key(k) implies b.entries()[k]
        == a.entries().insert(k0, e)[k] by {
        let (q, j) = choose|q: int, j: int| slot_has(b.partitions, q, j, k);
        lemma_entry_at(b, q, j);
        if q == p && j == i {
        } else {
            assert(slot_has(a.partitions, q, j, k));
            lemma_entry_at(a, q, j);
        }
    }
    assert(b.entries() =~= a.entries().insert(k0, e));
}

/// An entry under a free key of a modality that exists: the entry goes
/// between its neighbours.
pub proof fn lemma_insert_entry(a: Layout, b: Layout, p: int, i: int, e: EntryView)
    requires
        a.wf(),
        b.dim == a.dim,
        b.links == a.links,
        e.embedding.len() == a.dim,
        0 <= p < a.partitions.len(),
        0 <= i <= a.partitions[p].entries.len(),
        a.partitions[p].modality == e.modality,
        forall|j: int| 0 <= j < i ==> (#[trigger] a.partitions[p].entries[j]).id < e.id,
        forall|j: int|
            i <= j < a.partitions[p].entries.len() ==> (#[trigger] a.partitions[p].entries[j]).id
                > e.id,
        b.partitions == a.partitions.update(
            p,
            PartitionView { modality: e.modality, entries: a.partitions[p].entries.insert(i, e) },
        ),
    ensures
        b.wf(),
        b.entries() == a.entries().insert((e.modality, e.id), e),
{
    let k0 = (e.modality, e.id);
    let old_entries = a.partitions[p].entries;
    let new_entries = b.partitions[p].entries;
    assert(partition_wf(a.partitions[p], a.dim));
    assert(new_entries == old_entries.insert(i, e));
    assert(b.wf()) by {
        assert forall|q: int| 0 <= q < b.partitions.len() implies partition_wf(
            #[trigger] b.partitions[q],
            b.dim,
        ) by {
            if q != p {
                assert(b.partitions[q] == a.partitions[q]);
            } else {
                assert forall|x: int, y: int| 0 <= x < y < new_entries.len() implies new_entries[x].id
                    < new_entries[y].id by {
                    if y < i {
                        assert(old_entries[x].id < old_entries[y].id);
                    } else if y == i {
                        assert(new_entries[x] == old_entries[x]);
                    } else if x < i {
                        assert(new_entries[x] == old_entries[x]);
                        assert(new_entries[y] == old_entries[y - 1]);
                    } else if x == i {
                        assert(new_entries[y] == old_entries[y - 1]);
                    } else {
                        assert(old_entries[x - 1].id < old_entries[y - 1].id);
                    }
                }
                assert forall|x: int| 0 <= x < new_entries.len() implies (
                #[trigger] new_entries[x]).modality == b.partitions[p].modality
                    && new_entries[x].embedding.len() == b.dim by {
                    if x < i {
                        assert(new_entries[x] == old_entries[x]);
                    } else if x > i {
                        assert(new_entries[x] == old_entries[x - 1]);
                    }
                }
            }
        }
        assert forall|q: int, r: int| 0 <= q < r < b.partitions.len() implies (
        #[trigger] b.partitions[q]).modality != (#[trigger] b.partitions[r]).modality by {
            assert(b.partitions[q].modality == a.partitions[q].modality);
            assert(b.partitions[r].modality == a.partitions[r].modality);
        }
    }
    assert forall|k: (Seq<char>, u64)|
        b.entries().contains_key(k) <==> (k == k0 || a.entries().contains_key(k)) by {
        if b.entries().contains_key(k) {
            let (q, j) = choose|q: int, j: int| slot_has(b.partitions, q, j, k);
            if q != p {
                assert(slot_has(a.partitions, q, j, k));
            } else if j < i {
                assert(new_entries[j] == old_entries[j]);
                assert(slot_has(a.partitions, q, j, k));
            } else if j > i {
                assert(new_entries[j] == old_entries[j - 1]);
                assert(slot_has(a.partitions, q, j - 1, k));
            }
        }
        if a.entries().contains_key(k) {
            let (q, j) = choose|q: int, j: int| slot_has(a.partitions, q, j, k);
            if q != p {
                assert(slot_has(b.partitions, q, j, k));
            } else if j < i {
                assert(new_entries[j] == old_entries[j]);
                assert(slot_has(b.partitions, q, j, k));
            } else {
                assert(new_entries[j + 1] == old_entries[j]);
                assert(slot_has(b.partitions, q, j + 1, k));
            }
        }
        if k == k0 {
            assert(new_entries[i] == e);
            assert(slot_has(b.partitions, p, i, k));
        }
    }
    assert forall|k: (Seq<char>, u64)| b.entries().contains_key(k) implies b.entries()[k]
        == a.entries().insert(k0, e)[k] by {
        let (q, j) = choose|q: int, j: int| slot_has(b.partitions, q, j, k);
        lemma_entry_at(b, q, j);
        if q != p {
            assert(slot_has(a.partitions, q, j, k));
            lemma_entry_at(a, q, j);
        } else if j < i {
            assert(new_entries[j] == old_entries[j]);
            lemma_entry_at(a, q, j);
        } else if j > i {
            assert(new_entries[j] == old_entries[j - 1]);
            lemma_entry_at(a, q, j - 1);
        } else {
            assert(new_entries[i] == e);
        }
    }
    assert(b.entries() =~= a.entries().insert(k0, e));
}

/// A database: entries of one fixed dimension, partitioned by modality, and
/// a set of directed edges between identifiers.
#[derive(Debug)]
pub struct DB {
    dim: usize,
    partitions: Vec<Partition>,
    links: LinkGraph,
}

impl View for DB {
    type V = DbView;

    open spec fn view(&self) -> DbView {
        self.layout()@
    }
}

impl DB {
    /// The dimension that was chosen when the database was made.
    pub closed spec fn dimension(&self) -> nat {
        self.dim as nat
    }

    /// The partitions in the order in which they were created.
    pub closed spec fn parts(&self) -> Seq<Partition> {
        self.partitions@
    }

    /// The edges.
    pub closed spec fn link_graph(&self) -> LinkGraph {
        self.links
    }

    /// How the database is laid out.
    pub open spec fn layout(&self) -> Layout {
        Layout {
            dim: self.dimension(),
            partitions: partition_views(self.parts()),
            links: self.link_graph().ordered(),
        }
    }

    /// The invariant of a database: its layout is well formed.
    pub open spec fn wf(&self) -> bool {
        &&& self.layout().wf()
        &&& self.dimension() <= usize::MAX
    }

    /// An empty database of the given dimension.
    pub fn new(dim: usize) -> (db: DB)
        ensures
            db.wf(),
            db.layout() == Layout::empty(dim as nat),
            db@.dim == dim,
            db@.entries == Map::<(Seq<char>, u64), EntryView>::empty(),
            db@.links == Set::<(u64, u64)>::empty(),
    {
        let db = DB { dim, partitions: Vec::new(), links: LinkGraph::new() };
        proof {
            assert(db.layout().partitions =~= Seq::<PartitionView>::empty());
            assert(db@.entries =~= Map::<(Seq<char>, u64), EntryView>::empty());
            assert(db@.links =~= Set::<(u64, u64)>::empty());
        }
        db
    }

    /// A database of the given parts, which are well formed.
    pub(crate) fn from_parts(dim: usize, partitions: Vec<Partition>, links: LinkGraph) -> (db: DB)
        requires
            (Layout {
                dim: dim as nat,
                partitions: partition_views(partitions@),
                links: links.ordered(),
            }).wf(),
        ensures
            db.wf(),
            db.dimension() == dim,
            db.parts() == partitions@,
            db.link_graph() == links,
    {
        DB { dim, partitions, links }
    }

    /// The dimension of every stored embedding.
    pub fn dim(&self) -> (d: usize)
        ensures
            d == self.dimension(),
            d == self@.dim,
    {
        self.dim
    }

    /// The partitions, for writing them out.
    pub(crate) fn partitions(&self) -> (r: &Vec<Partition>)
        ensures
            r@ == self.parts(),
    {
        &self.partitions
    }

    /// The link graph.
    pub fn links(&self) -> (r: &LinkGraph)
        ensures
            *r == self.link_graph(),
    {
        &self.links
    }

    /// The position of the partition of `modality`, if there is one.
    pub(crate) fn find_partition(&self, modality: &str) -> (r: Option<usize>)
        ensures
            match r {
                Some(p) => p < self.parts().len() && self.parts()[p as int].modality@ == modality@,
                None => forall|p: int|
                    0 <= p < self.parts().len() ==> (#[trigger] self.parts()[p]).modality@
                        != modality@,
            },
    {
        let mut p: usize = 0;
        while p < self.partitions.len()
            invariant
                p <= self.partitions@.len(),
                forall|q: int|
                    0 <= q < p ==> (#[trigger] self.partitions@[q]).modality@ != modality@,
            decreases self.partitions@.len() - p,
        {
            if str_eq(self.partitions[p].modality.as_str(), modality) {
                return Some(p);
            }
            p += 1;
        }
        None
    }

    /// Releases the database. Nothing is written: what was not saved is lost.
    pub fn close(self) {
    }
}

impl DB {
    /// The entry of `modality` with the identifier `id`, if there is one.
    pub fn get(&self, modality: &str, id: u64) -> (r: Option<&Entry>)
        requires
            self.wf(),
        ensures
            match r {
                Some(e) => self@.entries.contains_key((modality@, id)) && self@.entries[(
                    modality@,
                    id,
                )] == e@,
                None => !self@.entries.contains_key((modality@, id)),
            },
    {
        let ghost l = self.layout();
        let ghost k = (modality@, id);
        match self.find_partition(modality) {
            None => {
                proof {
                    if l.entries().contains_key(k) {
                        let (p, i) = choose|p: int, i: int| slot_has(l.partitions, p, i, k);
                        assert(self.parts()[p].modality@ != modality@);
                    }
                }
                None
            },
            Some(p) => {
                let entries = &self.partitions[p].entries;
                proof {
                    assert(partition_wf(l.partitions[p as int], l.dim));
                    assert forall|x: int, y: int| 0 <= x < y < entries@.len() implies entries@[x].id
                        < entries@[y].id by {
                        assert(l.partitions[p as int].entries[x].id < l.partitions[p as int].entries[y].id);
                    }
                }
                let i: usize = lower_bound(entries, id);
                if i < entries.len() && entries[i].id == id {
                    proof {
                        lemma_entry_at(l, p as int, i as int);
                    }
                    Some(&entries[i])
                } else {
                    proof {
                        if l.entries().contains_key(k) {
                            let (q, j) = choose|q: int, j: int| slot_has(l.partitions, q, j, k);
                            if q < p {
                                assert(l.partitions[q].modality != l.partitions[p as int].modality);
                            } else if p < q {
                                assert(l.partitions[p as int].modality != l.partitions[q].modality);
                            } else {
                                assert(entries@[j].id == id);
                            }
                        }
                    }
                    None
                }
            },
        }
    }

    /// Stores `entry` under its modality and identifier, in place of the
    /// entry that was there, if any.
    fn put(&mut self, entry: Entry)
        requires
            old(self).wf(),
            entry.embedding@.len() == old(self).dimension(),
        ensures
            final(self).wf(),
            final(self)@ == (DbView {
                entries: old(self)@.entries.insert((entry.modality@, entry.id), entry@),
                ..old(self)@
            }),
            final(self).link_graph() == old(self).link_graph(),
    {
        let ghost a = self.layout();
        let ghost e = entry@;
        match self.find_partition(entry.modality.as_str()) {
            None => {
                let modality = entry.modality.clone();
                let mut entries: Vec<Entry> = Vec::new();
                entries.push(entry);
                self.partitions.push(Partition { modality, entries });
                proof {
                    let b = self.layout();
                    assert(b.partitions =~= a.partitions.push(
                        PartitionView { modality: e.modality, entries: seq![e] },
                    )) by {
                        assert(entry_views(seq![entry]) =~= seq![e]);
                    }
                    assert forall|p: int| 0 <= p < a.partitions.len() implies (
                    #[trigger] a.partitions[p]).modality != e.modality by {
                        assert(old(self).parts()[p].modality@ != e.modality);
                    }
                    lemma_add_partition(a, b, e);
                }
            },
            Some(p) => {
                let ghost old_entries = self.partitions@[p as int].entries@;
                proof {
                    assert(partition_wf(a.partitions[p as int], a.dim));
                    assert forall|x: int, y: int| 0 <= x < y < old_entries.len() implies old_entries[x].id
                        < old_entries[y].id by {
                        assert(a.partitions[p as int].entries[x].id < a.partitions[p as int].entries[y].id);
                    }
                }
                let i: usize = lower_bound(&self.partitions[p].entries, entry.id);
                if i < self.partitions[p].entries.len() && self.partitions[p].entries[i].id
                    == entry.id {
                    self.partitions[p].entries[i] = entry;
                    proof {
                        let b = self.layout();
                        assert(self.partitions@[p as int].entries@ == old_entries.update(i as int, entry));
                        assert(b.partitions =~= a.partitions.update(
                            p as int,
                            PartitionView {
                                modality: e.modality,
                                entries: a.partitions[p as int].entries.update(i as int, e),
                            },
                        )) by {
                            assert(entry_views(old_entries.update(i as int, entry)) =~= entry_views(
                                old_entries,
                            ).update(i as int, e));
                        }
                        lemma_replace_entry(a, b, p as int, i as int, e);
                    }
                } else {
                    self.partitions[p].entries.insert(i, entry);
                    proof {
                        let b = self.layout();
                        assert(self.partitions@[p as int].entries@ == old_entries.insert(i as int, entry));
                        assert(b.partitions =~= a.partitions.update(
                            p as int,
                            PartitionView {
                                modality: e.modality,
                                entries: a.partitions[p as int].entries.insert(i as int, e),
                            },
                        )) by {
                            assert(entry_views(old_entries.insert(i as int, entry)) =~= entry_views(
                                old_entries,
                            ).insert(i as int, e));
                        }
                        assert forall|j: int| 0 <= j < i implies (
                        #[trigger] a.partitions[p as int].entries[j]).id < e.id by {
                            assert(old_entries[j].id < e.id);
                        }
                        assert forall|j: int| i <= j < a.partitions[p as int].entries.len() implies (
                        #[trigger] a.partitions[p as int].entries[j]).id > e.id by {
                            assert(old_entries[j].id >= e.id);
                        }
                        lemma_insert_entry(a, b, p as int, i as int, e);
                    }
                }
            },
        }
    }

    /// Stores `vector` under `id` with full metadata, in the partition of
    /// `modality`, which is created if this is its first entry. An entry that
    /// was stored under the same identifier in that modality is replaced. An
    /// absent `source` or `content` is stored as absent, not as empty.
    ///
    /// Fails, and changes nothing, if the vector is not of the database's
    /// dimension.
    pub fn add_with_meta(
        &mut self,
        id: u64,
        vector: &[u32],
        timestamp: i64,
        importance: u32,
        context_type: u8,
        source: Option<&str>,
        content: Option<&str>,
        modality: &str,
    ) -> (r: Result<(), DbError>)
        requires
            old(self).wf(),
        ensures
            final(self).wf(),
            match r {
                Ok(_) => {
                    &&& vector@.len() == old(self)@.dim
                    &&& final(self)@ == (DbView {
                        entries: old(self)@.entries.insert(
                            (modality@, id),
                            EntryView {
                                id,
                                embedding: vector@,
                                timestamp,
                                importance,
                                context_type,
                                source: opt_str_view(source),
                                content: opt_str_view(content),
                                modality: modality@,
                            },
                        ),
                        ..old(self)@
                    })
                },
                Err(e) => {
                    &&& e == DbError::DimensionMismatch
                    &&& vector@.len() != old(self)@.dim
                    &&& *final(self) == *old(self)
                },
            },
    {
        if vector.len() != self.dim {
            return Err(DbError::DimensionMismatch);
        }
        let entry = Entry {
            id,
            embedding: slice_to_vec(vector),
            timestamp,
            importance,
            context_type,
            source: opt_to_owned(source),
            content: opt_to_owned(content),
            modality: modality.to_owned(),
        };
        self.put(entry);
        Ok(())
    }

    /// Stores `vector` under `id` in the default modality, with default
    /// metadata. An entry that was stored under `id` there is replaced.
    ///
    /// Fails, and changes nothing, if the vector is not of the database's
    /// dimension.
    pub fn add(&mut self, id: u64, vector: &[u32]) -> (r: Result<(), DbError>)
        requires
            old(self).wf(),
        ensures
            final(self).wf(),
            match r {
                Ok(_) => {
                    &&& vector@.len() == old(self)@.dim
                    &&& final(self)@ == (DbView {
                        entries: old(self)@.entries.insert(
                            (default_modality(), id),
                            EntryView::plain(id, vector@),
                        ),
                        ..old(self)@
                    })
                },
                Err(e) => {
                    &&& e == DbError::DimensionMismatch
                    &&& vector@.len() != old(self)@.dim
                    &&& *final(self) == *old(self)
                },
            },
    {
        if vector.len() != self.dim {
            return Err(DbError::DimensionMismatch);
        }
        self.put(Entry::plain(id, slice_to_vec(vector)));
        Ok(())
    }

    /// Records a directed edge from `from` to `to`. Neither identifier has to
    /// belong to an entry; an edge that is there already stays there once.
    /// This never fails.
    pub fn link(&mut self, from: u64, to: u64)
        requires
            old(self).wf(),
        ensures
            final(self).wf(),
            final(self)@ == (DbView { links: old(self)@.links.insert((from, to)), ..old(self)@ }),
            final(self).parts() == old(self).parts(),
    {
        self.links.link(from, to);
        proof {
            assert(self.layout().partitions == old(self).layout().partitions);
        }
    }

    /// The identifiers that `id` links to, in ascending order.
    pub fn links_from(&self, id: u64) -> (out: Vec<u64>)
        requires
            self.wf(),
        ensures
            ids_ascending(out@),
            out@.to_set() == Set::new(|to: u64| self@.links.contains((id, to))),
    {
        let out = self.links.links_from(id);
        proof {
            assert(self.links.targets(id) =~= Set::new(|to: u64| self@.links.contains((id, to))));
        }
        out
    }

    /// The identifiers that link to `id`, in ascending order.
    pub fn links_to(&self, id: u64) -> (out: Vec<u64>)
        requires
            self.wf(),
        ensures
            ids_ascending(out@),
            out@.to_set() == Set::new(|from: u64| self@.links.contains((from, id))),
    {
        let out = self.links.links_to(id);
        proof {
            assert(self.links.sources(id) =~= Set::new(|from: u64| self@.links.contains((from, id))));
        }
        out
    }
}

/// The first position in `entries` whose identifier is not below `id`.
fn lower_bound(entries: &Vec<Entry>, id: u64) -> (p: usize)
    requires
        forall|i: int, j: int| 0 <= i < j < entries@.len() ==> entries@[i].id < entries@[j].id,
    ensures
        p <= entries@.len(),
        forall|j: int| 0 <= j < p ==> (#[trigger] entries@[j]).id < id,
        forall|j: int| p <= j < entries@.len() ==> (#[trigger] entries@[j]).id >= id,
{
    let mut lo: usize = 0;
    let mut hi: usize = entries.len();
    while lo < hi
        invariant
            lo <= hi <= entries@.len(),
            forall|i: int, j: int| 0 <= i < j < entries@.len() ==> entries@[i].id < entries@[j].id,
            forall|j: int| 0 <= j < lo ==> (#[trigger] entries@[j]).id < id,
            forall|j: int| hi <= j < entries@.len() ==> (#[trigger] entries@[j]).id >= id,
        decreases hi - lo,
    {
        let mid: usize = lo + (hi - lo) / 2;
        if entries[mid].id < id {
            proof {
                assert forall|j: int| 0 <= j < mid + 1 implies (#[trigger] entries@[j]).id < id by {
                    if j < mid {
                        assert(entries@[j].id < entries@[mid as int].id);
                    }
                }
            }
            lo = mid + 1;
        } else {
            proof {
                assert forall|j: int| mid <= j < entries@.len() implies (#[trigger] entries@[j]).id
                    >= id by {
                    if mid < j {
                        assert(entries@[mid as int].id < entries@[j].id);
                    }
                }
            }
            hi = mid;
        }
    }
    lo
}

} // verus!
