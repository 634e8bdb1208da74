//! The storage layer: three logical tables keyed by memory id. `memories`
//! holds the records; `edges_out` and `edges_in` hold every edge twice, once
//! under its source and once under its target, and the two are only ever
//! written together.
use crate::models::{
    clone_edges, clone_inbound_edges, current_time, edge_views, inbound_views, Edge, EdgeView,
    InboundEdge, InboundEdgeView, Memory, MemoryView, Timestamp,
};
use crate::storage::table::Table;
use vstd::prelude::*;

pub mod table;

verus! {

/// What a store holds.
pub struct StorageView {
    /// The records, by id.
    pub memories: Map<u128, MemoryView>,
    /// Outgoing edges, by source id, oldest first.
    pub edges_out: Map<u128, Seq<EdgeView>>,
    /// Incoming edges, by target id, oldest first.
    pub edges_in: Map<u128, Seq<InboundEdgeView>>,
}

/// Whether `ids` strictly increases.
pub open spec fn ascending(ids: Seq<u128>) -> bool {
    forall|i: int, j: int| 0 <= i < j < ids.len() ==> ids[i] < ids[j]
}

/// Whether `ids` lists exactly the keys of `map`, in ascending order.
pub open spec fn lists_keys<V>(ids: Seq<u128>, map: Map<u128, V>) -> bool {
    ascending(ids) && forall|id: u128| ids.contains(id) <==> map.contains_key(id)
}

/// Two ascending sequences with the same elements are the same sequence.
pub proof fn lemma_ascending_unique(a: Seq<u128>, b: Seq<u128>)
    requires
        ascending(a),
        ascending(b),
        forall|id: u128| a.contains(id) <==> b.contains(id),
    ensures
        a == b,
    decreases a.len(),
{
    if a.len() == 0 {
        if b.len() > 0 {
            assert(b.contains(b[0]));
            assert(a.contains(b[0]));
        }
        assert(a =~= b);
    } else {
        let top = a.last();
        assert(a.contains(top));
        assert(b.contains(top));
        assert(b.len() > 0);
        assert(b.contains(b.last()));
        assert(a.contains(b.last()));
        let ia = choose|i: int| 0 <= i < a.len() && a[i] == b.last();
        let ib = choose|i: int| 0 <= i < b.len() && b[i] == top;
        assert(a[ia] <= top);
        assert(b[ib] <= b.last());
        assert(top == b.last());
        let a0 = a.drop_last();
        let b0 = b.drop_last();
        assert forall|id: u128| a0.contains(id) <==> b0.contains(id) by {
            if a0.contains(id) {
                let i = choose|i: int| 0 <= i < a0.len() && a0[i] == id;
                assert(a[i] == id);
                assert(a.contains(id));
                let j = choose|j: int| 0 <= j < b.len() && b[j] == id;
                assert(a[i] < a[a.len() - 1]);
                assert(b0[j] == id);
            }
            if b0.contains(id) {
                let j = choose|j: int| 0 <= j < b0.len() && b0[j] == id;
                assert(b[j] == id);
                assert(b.contains(id));
                let i = choose|i: int| 0 <= i < a.len() && a[i] == id;
                assert(b[j] < b[b.len() - 1]);
                assert(a0[i] == id);
            }
        }
        lemma_ascending_unique(a0, b0);
        assert(a =~= a0.push(top));
        assert(b =~= b0.push(top));
    }
}

/// Where `id` goes into an ascending sequence: behind everything below it.
pub open spec fn rank_of(ids: Seq<u128>, id: u128) -> int
    decreases ids.len(),
{
    if ids.len() == 0 || ids.last() < id {
        ids.len() as int
    } else {
        rank_of(ids.drop_last(), id)
    }
}

/// In an ascending sequence, what stands before the rank of `id` is below
/// it, and what stands from there on is not.
pub proof fn lemma_rank_of(ids: Seq<u128>, id: u128)
    requires
        ascending(ids),
    ensures
        0 <= rank_of(ids, id) <= ids.len(),
        forall|i: int| 0 <= i < rank_of(ids, id) ==> ids[i] < id,
        forall|i: int| rank_of(ids, id) <= i < ids.len() ==> ids[i] >= id,
    decreases ids.len(),
{
    if !(ids.len() == 0 || ids.last() < id) {
        let init = ids.drop_last();
        lemma_rank_of(init, id);
        assert forall|i: int| 0 <= i < rank_of(ids, id) implies ids[i] < id by {
            assert(init[i] == ids[i]);
        }
        assert forall|i: int| rank_of(ids, id) <= i < ids.len() implies ids[i] >= id by {
            if i < init.len() {
                assert(init[i] == ids[i]);
            }
        }
    }
}

/// The elements of a finite set can be listed in ascending order.
pub proof fn lemma_finite_set_has_listing(ids: Set<u128>)
    requires
        ids.finite(),
    ensures
        exists|listing: Seq<u128>|
            ascending(listing) && forall|id: u128| listing.contains(id) <==> ids.contains(id),
    decreases ids.len(),
{
    if ids.len() == 0 {
        ids.lemma_len0_is_empty();
        let listing = Seq::<u128>::empty();
        assert(ascending(listing) && forall|id: u128| listing.contains(id) <==> ids.contains(id));
    } else {
        let one = ids.choose();
        let others = ids.remove(one);
        lemma_finite_set_has_listing(others);
        let rest = choose|listing: Seq<u128>|
            ascending(listing) && forall|id: u128| listing.contains(id) <==> others.contains(id);
        lemma_rank_of(rest, one);
        let at = rank_of(rest, one);
        let listing = rest.insert(at, one);
        assert(!rest.contains(one));
        assert(ascending(listing)) by {
            assert forall|i: int, j: int| 0 <= i < j < listing.len() implies listing[i]
                < listing[j] by {
                if j < at {
                    assert(listing[i] == rest[i] && listing[j] == rest[j]);
                } else if j == at {
                    assert(listing[i] == rest[i]);
                } else if i < at {
                    assert(listing[i] == rest[i] && listing[j] == rest[j - 1]);
                } else if i == at {
                    assert(listing[j] == rest[j - 1]);
                    assert(rest.contains(rest[j - 1]));
                } else {
                    assert(listing[i] == rest[i - 1] && listing[j] == rest[j - 1]);
                }
            }
        }
        assert forall|id: u128| listing.contains(id) <==> ids.contains(id) by {
            if listing.contains(id) {
                let i = choose|i: int| 0 <= i < listing.len() && listing[i] == id;
                if i < at {
                    assert(rest[i] == id);
                    assert(rest.contains(id));
                } else if i > at {
                    assert(rest[i - 1] == id);
                    assert(rest.contains(id));
                }
            }
            if ids.contains(id) {
                if id == one {
                    assert(listing[at] == id);
                } else {
                    assert(others.contains(id));
                    assert(rest.contains(id));
                    let i = choose|i: int| 0 <= i < rest.len() && rest[i] == id;
                    if i < at {
                        assert(listing[i] == id);
                    } else {
                        assert(listing[i + 1] == id);
                    }
                }
            }
        }
        assert(ascending(listing) && forall|id: u128| listing.contains(id) <==> ids.contains(id));
    }
}

impl StorageView {
    /// A store that holds nothing.
    pub open spec fn empty() -> StorageView {
        StorageView { memories: Map::empty(), edges_out: Map::empty(), edges_in: Map::empty() }
    }

    /// The record under `id`, if there is one.
    pub open spec fn lookup(self, id: u128) -> Option<MemoryView> {
        if self.memories.contains_key(id) {
            Some(self.memories[id])
        } else {
            None
        }
    }

    /// The outgoing edges of `id`; none for a node without recorded edges.
    pub open spec fn outbound(self, id: u128) -> Seq<EdgeView> {
        if self.edges_out.contains_key(id) {
            self.edges_out[id]
        } else {
            Seq::empty()
        }
    }

    /// The incoming edges of `id`; none for a node without recorded edges.
    pub open spec fn inbound(self, id: u128) -> Seq<InboundEdgeView> {
        if self.edges_in.contains_key(id) {
            self.edges_in[id]
        } else {
            Seq::empty()
        }
    }

    /// Whether every record is filed under its own id.
    pub open spec fn keyed_by_id(self) -> bool {
        forall|id: u128| self.memories.contains_key(id) ==> (#[trigger] self.memories[id]).id == id
    }

    /// What holds of every store: it holds finitely many records, each
    /// under its own id.
    pub open spec fn valid(self) -> bool {
        self.memories.dom().finite() && self.keyed_by_id()
    }

    /// A valid store can be scanned: `memory_ids` lists exactly the ids of
    /// its records, in ascending order.
    pub proof fn lemma_scan_lists_all(self)
        requires
            self.valid(),
        ensures
            lists_keys(self.memory_ids(), self.memories),
    {
        lemma_finite_set_has_listing(self.memories.dom());
        let listing = choose|listing: Seq<u128>|
            ascending(listing) && forall|id: u128|
                listing.contains(id) <==> self.memories.dom().contains(id);
        assert(lists_keys(listing, self.memories));
    }

    /// The ids of all records in the order of a full scan: ascending.
    pub open spec fn memory_ids(self) -> Seq<u128> {
        choose|ids: Seq<u128>| lists_keys(ids, self.memories)
    }

    /// How often the edge from `source` to `target` with this label,
    /// weight and instant is listed among the outgoing edges of `source`.
    pub open spec fn listed_out(
        self,
        source: u128,
        target: u128,
        relation_type: Seq<char>,
        weight: i64,
        at: Timestamp,
    ) -> nat {
        self.outbound(source).to_multiset().count(
            EdgeView { target_id: target, relation_type, weight, created_at: at },
        )
    }

    /// How often the edge from `source` to `target` with this label,
    /// weight and instant is listed among the incoming edges of `target`.
    pub open spec fn listed_in(
        self,
        source: u128,
        target: u128,
        relation_type: Seq<char>,
        weight: i64,
        at: Timestamp,
    ) -> nat {
        self.inbound(target).to_multiset().count(
            InboundEdgeView { source_id: source, relation_type, weight, created_at: at },
        )
    }

    /// Whether the two directions of the graph pair up: every edge is
    /// listed as often under its source as under its target.
    pub open spec fn paired(self) -> bool {
        forall|source: u128, target: u128, relation_type: Seq<char>, weight: i64, at: Timestamp|
            #[trigger] self.listed_out(source, target, relation_type, weight, at)
                == self.listed_in(source, target, relation_type, weight, at)
    }

    /// The store after `memory` was saved: it replaces whatever record had
    /// its id, and nothing else changes.
    pub open spec fn with_memory(self, memory: MemoryView) -> StorageView {
        StorageView { memories: self.memories.insert(memory.id, memory), ..self }
    }

    /// The store after one edge from `source` to `target` was added at the
    /// instant `at`: one entry more at the end of the source's outgoing
    /// list, one more at the end of the target's incoming list, both with
    /// the same label, weight and instant.
    pub open spec fn with_edge(
        self,
        source: u128,
        target: u128,
        relation_type: Seq<char>,
        weight: i64,
        at: Timestamp,
    ) -> StorageView {
        StorageView {
            memories: self.memories,
            edges_out: self.edges_out.insert(
                source,
                self.outbound(source).push(
                    EdgeView { target_id: target, relation_type, weight, created_at: at },
                ),
            ),
            edges_in: self.edges_in.insert(
                target,
                self.inbound(target).push(
                    InboundEdgeView { source_id: source, relation_type, weight, created_at: at },
                ),
            ),
        }
    }
}

/// The views of the records of a list, in order.
pub open spec fn memory_views(memories: Seq<Memory>) -> Seq<MemoryView> {
    memories.map_values(|m: Memory| m@)
}

/// The view of an optional record.
pub open spec fn opt_memory_view(memory: Option<Memory>) -> Option<MemoryView> {
    match memory {
        Some(m) => Some(m@),
        None => None,
    }
}

/// The store: memories and the bidirectional adjacency structure.
pub struct StorageManager {
    memories: Table<Memory>,
    edges_out: Table<Vec<Edge>>,
    edges_in: Table<Vec<InboundEdge>>,
}

impl View for StorageManager {
    type V = StorageView;

    closed spec fn view(&self) -> StorageView {
        StorageView {
            memories: self.memories@.map_values(|m: Memory| m@),
            edges_out: self.edges_out@.map_values(|edges: Vec<Edge>| edge_views(edges@)),
            edges_in: self.edges_in@.map_values(|edges: Vec<InboundEdge>| inbound_views(edges@)),
        }
    }
}

impl StorageManager {
    #[verifier::type_invariant]
    spec fn filed_by_id(self) -> bool {
        forall|id: u128| self.memories@.contains_key(id) ==> (#[trigger] self.memories@[id]).id == id
    }

    /// An empty store.
    pub fn new() -> (store: Self)
        ensures
            store@ == StorageView::empty(),
            store@.paired(),
    {
        proof {
            lemma_empty_store_is_paired();
        }
        let store = StorageManager {
            memories: Table::new(),
            edges_out: Table::new(),
            edges_in: Table::new(),
        };
        assert(store@.memories =~= Map::empty());
        assert(store@.edges_out =~= Map::empty());
        assert(store@.edges_in =~= Map::empty());
        store
    }

    /// What a store holds is valid: finitely many records, each under its
    /// own id.
    pub fn holds_valid_view(&self)
        ensures
            self@.valid(),
    {
        proof {
            use_type_invariant(self);
        }
        self.memories.scan_order();
        proof {
            let keys = self.memories.keys();
            vstd::seq_lib::seq_to_set_is_finite(keys);
            assert(self@.memories.dom() =~= keys.to_set());
        }
    }

    /// Saves `memory` under its id. A record that had the id is overwritten
    /// whole; the write is visible to every later read.
    pub fn save_memory(&mut self, memory: &Memory)
        ensures
            final(self)@ == old(self)@.with_memory(memory@),
            old(self)@.paired() ==> final(self)@.paired(),
    {
        proof {
            lemma_save_then_get(self@, memory@);
        }
        proof {
            use_type_invariant(&*self);
        }
        let mut memories: Table<Memory> = Table::new();
        core::mem::swap(&mut self.memories, &mut memories);
        let ghost before = memories@;
        let copy = memory.clone();
        memories.put(memory.id, copy);
        assert(memories@.map_values(|m: Memory| m@) =~= before.map_values(|m: Memory| m@).insert(
            memory.id,
            memory@,
        ));
        self.memories = memories;
    }

    /// The record under `id` as the store holds it, without a copy.
    pub fn peek_memory(&self, id: u128) -> (found: Option<&Memory>)
        ensures
            match found {
                Some(memory) => self@.lookup(id) == Some(memory@) && memory.id == id,
                None => self@.lookup(id) is None,
            },
    {
        proof {
            use_type_invariant(self);
        }
        self.memories.get(id)
    }

    /// The record under `id`, or `None` where the store holds none: a
    /// missing record is no error.
    pub fn get_memory(&self, id: u128) -> (found: Option<Memory>)
        ensures
            opt_memory_view(found) == self@.lookup(id),
            found matches Some(memory) ==> memory.id == id,
    {
        match self.peek_memory(id) {
            Some(memory) => Some(memory.clone()),
            None => None,
        }
    }

    /// Every stored record, in ascending order of id.
    pub fn list_memories(&self) -> (all: Vec<Memory>)
        ensures
            all@.len() == self@.memory_ids().len(),
            forall|i: int|
                0 <= i < all@.len() ==> {
                    &&& (#[trigger] all@[i]).id == self@.memory_ids()[i]
                    &&& self@.lookup(all@[i].id) == Some(all@[i]@)
                },
    {
        proof {
            use_type_invariant(self);
        }
        self.memories.scan_order();
        proof {
            assert(lists_keys(self.memories.keys(), self@.memories));
            lemma_ascending_unique(self.memories.keys(), self@.memory_ids());
        }
        let mut all: Vec<Memory> = Vec::new();
        let n: usize = self.memories.len();
        let mut i: usize = 0;
        while i < n
            invariant
                i <= n,
                n == self.memories.keys().len(),
                self.memories.keys() == self@.memory_ids(),
                self.filed_by_id(),
                all@.len() == i,
                forall|j: int|
                    0 <= j < i ==> {
                        &&& (#[trigger] all@[j]).id == self@.memory_ids()[j]
                        &&& self@.lookup(all@[j].id) == Some(all@[j]@)
                    },
            decreases n - i,
        {
            let memory = self.memories.value_at(i);
            all.push(memory.clone());
            i += 1;
        }
        all
    }

    /// Adds one edge from `source` to `target`, stamped `at`, to both
    /// directions of the graph at once. The endpoints need not be stored
    /// memories, and the same edge added twice is listed twice.
    pub fn add_edge_at(
        &mut self,
        source: u128,
        target: u128,
        relation_type: String,
        weight: i64,
        at: Timestamp,
    )
        ensures
            final(self)@ == old(self)@.with_edge(source, target, relation_type@, weight, at),
            old(self)@.paired() ==> final(self)@.paired(),
    {
        proof {
            if self@.paired() {
                lemma_edge_keeps_pairing(self@, source, target, relation_type@, weight, at);
            }
        }
        proof {
            use_type_invariant(&*self);
        }
        let ghost before = self@;
        let mut outgoing: Vec<Edge> = self.get_outbound_edges(source);
        let mut incoming: Vec<InboundEdge> = self.get_inbound_edges(target);
        outgoing.push(
            Edge { target_id: target, relation_type: relation_type.clone(), weight, created_at: at },
        );
        incoming.push(InboundEdge { source_id: source, relation_type, weight, created_at: at });
        assert(edge_views(outgoing@) =~= before.outbound(source).push(
            EdgeView { target_id: target, relation_type: relation_type@, weight, created_at: at },
        ));
        assert(inbound_views(incoming@) =~= before.inbound(target).push(
            InboundEdgeView {
                source_id: source,
                relation_type: relation_type@,
                weight,
                created_at: at,
            },
        ));

        let mut edges_out: Table<Vec<Edge>> = Table::new();
        let mut edges_in: Table<Vec<InboundEdge>> = Table::new();
        core::mem::swap(&mut self.edges_out, &mut edges_out);
        core::mem::swap(&mut self.edges_in, &mut edges_in);
        let ghost out_before = edges_out@;
        let ghost in_before = edges_in@;
        edges_out.put(source, outgoing);
        edges_in.put(target, incoming);
        assert(edges_out@.map_values(|edges: Vec<Edge>| edge_views(edges@))
            =~= out_before.map_values(|edges: Vec<Edge>| edge_views(edges@)).insert(
            source,
            edge_views(outgoing@),
        ));
        assert(edges_in@.map_values(|edges: Vec<InboundEdge>| inbound_views(edges@))
            =~= in_before.map_values(|edges: Vec<InboundEdge>| inbound_views(edges@)).insert(
            target,
            inbound_views(incoming@),
        ));
        self.edges_out = edges_out;
        self.edges_in = edges_in;
    }

    /// Adds one edge from `source` to `target`, stamped with the current
    /// time, to both directions of the graph at once. Whatever instant the
    /// clock gives, both entries carry it: it is the one the new last
    /// outgoing entry of `source` holds.
    pub fn add_edge(&mut self, source: u128, target: u128, relation_type: String, weight: i64)
        ensures
            final(self)@ == old(self)@.with_edge(
                source,
                target,
                relation_type@,
                weight,
                final(self)@.outbound(source).last().created_at,
            ),
            old(self)@.paired() ==> final(self)@.paired(),
    {
        let now = current_time();
        self.add_edge_at(source, target, relation_type, weight, now);
    }

    /// Installs `edges` as the whole outgoing list of `id`, in place of
    /// what was listed. This is for bringing a persisted store back; new
    /// edges go through [`StorageManager::add_edge`], which writes both
    /// directions. This function writes one direction alone: that the two
    /// pair up again once both are restored is the caller's to see to.
    pub fn restore_outbound_edges(&mut self, id: u128, edges: Vec<Edge>)
        ensures
            final(self)@ == (StorageView {
                edges_out: old(self)@.edges_out.insert(id, edge_views(edges@)),
                ..old(self)@
            }),
    {
        proof {
            use_type_invariant(&*self);
        }
        let mut edges_out: Table<Vec<Edge>> = Table::new();
        core::mem::swap(&mut self.edges_out, &mut edges_out);
        let ghost before = edges_out@;
        edges_out.put(id, edges);
        assert(edges_out@.map_values(|list: Vec<Edge>| edge_views(list@)) =~= before.map_values(
            |list: Vec<Edge>| edge_views(list@),
        ).insert(id, edge_views(edges@)));
        self.edges_out = edges_out;
    }

    /// Installs `edges` as the whole incoming list of `id`, in place of
    /// what was listed; see [`StorageManager::restore_outbound_edges`].
    pub fn restore_inbound_edges(&mut self, id: u128, edges: Vec<InboundEdge>)
        ensures
            final(self)@ == (StorageView {
                edges_in: old(self)@.edges_in.insert(id, inbound_views(edges@)),
                ..old(self)@
            }),
    {
        proof {
            use_type_invariant(&*self);
        }
        let mut edges_in: Table<Vec<InboundEdge>> = Table::new();
        core::mem::swap(&mut self.edges_in, &mut edges_in);
        let ghost before = edges_in@;
        edges_in.put(id, edges);
        assert(edges_in@.map_values(|list: Vec<InboundEdge>| inbound_views(list@))
            =~= before.map_values(|list: Vec<InboundEdge>| inbound_views(list@)).insert(
            id,
            inbound_views(edges@),
        ));
        self.edges_in = edges_in;
    }

    /// The outgoing edges of `id`, oldest first; empty for a node without
    /// recorded edges, known or not.
    pub fn get_outbound_edges(&self, id: u128) -> (edges: Vec<Edge>)
        ensures
            edge_views(edges@) == self@.outbound(id),
    {
        match self.edges_out.get(id) {
            Some(edges) => clone_edges(edges),
            None => {
                let none: Vec<Edge> = Vec::new();
                assert(edge_views(none@) =~= Seq::empty());
                none
            },
        }
    }

    /// The incoming edges of `id`, oldest first; empty for a node without
    /// recorded edges, known or not.
    pub fn get_inbound_edges(&self, id: u128) -> (edges: Vec<InboundEdge>)
        ensures
            inbound_views(edges@) == self@.inbound(id),
    {
        match self.edges_in.get(id) {
            Some(edges) => clone_inbound_edges(edges),
            None => {
                let none: Vec<InboundEdge> = Vec::new();
                assert(inbound_views(none@) =~= Seq::empty());
                none
            },
        }
    }
}

/// Round trip: once a memory is saved, a lookup of its id gives that very
/// memory, whatever the store held under the id before. Every other record
/// and every edge is as it was.
pub proof fn lemma_save_then_get(store: StorageView, memory: MemoryView)
    ensures
        store.with_memory(memory).lookup(memory.id) == Some(memory),
        forall|other: u128|
            other != memory.id ==> store.with_memory(memory).lookup(other) == store.lookup(other),
        store.with_memory(memory).edges_out == store.edges_out,
        store.with_memory(memory).edges_in == store.edges_in,
        store.valid() ==> store.with_memory(memory).valid(),
        store.paired() ==> store.with_memory(memory).paired(),
{
    let after = store.with_memory(memory);
    if store.paired() {
        assert forall|source: u128, target: u128, relation_type: Seq<char>, weight: i64, at: Timestamp|
            #[trigger] after.listed_out(source, target, relation_type, weight, at)
                == after.listed_in(source, target, relation_type, weight, at) by {
            assert(store.listed_out(source, target, relation_type, weight, at) == store.listed_in(
                source,
                target,
                relation_type,
                weight,
                at,
            ));
        }
    }
    if store.valid() {
        assert(store.with_memory(memory).memories.dom() =~= store.memories.dom().insert(
            memory.id,
        ));
    }
}

/// Edge symmetry: adding an edge puts exactly one new entry at the end of
/// the source's outgoing list, naming the target, and exactly one at the
/// end of the target's incoming list, naming the source; both carry the
/// same label, weight and instant. No other list and no record changes.
pub proof fn lemma_edge_symmetry(
    store: StorageView,
    source: u128,
    target: u128,
    relation_type: Seq<char>,
    weight: i64,
    at: Timestamp,
)
    ensures
        ({
            let after = store.with_edge(source, target, relation_type, weight, at);
            &&& after.outbound(source) == store.outbound(source).push(
                EdgeView { target_id: target, relation_type, weight, created_at: at },
            )
            &&& after.inbound(target) == store.inbound(target).push(
                InboundEdgeView { source_id: source, relation_type, weight, created_at: at },
            )
            &&& forall|other: u128| other != source ==> after.outbound(other) == store.outbound(other)
            &&& forall|other: u128| other != target ==> after.inbound(other) == store.inbound(other)
            &&& after.memories == store.memories
        }),
{
}

/// In a store without edges the two directions pair up.
pub proof fn lemma_empty_store_is_paired()
    ensures
        StorageView::empty().paired(),
{
    broadcast use vstd::multiset::group_multiset_axioms;

    let store = StorageView::empty();
    assert forall|source: u128, target: u128, relation_type: Seq<char>, weight: i64, at: Timestamp|
        #[trigger] store.listed_out(source, target, relation_type, weight, at) == store.listed_in(
            source,
            target,
            relation_type,
            weight,
            at,
        ) by {
        vstd::seq_lib::to_multiset_contains(
            store.outbound(source),
            EdgeView { target_id: target, relation_type, weight, created_at: at },
        );
        vstd::seq_lib::to_multiset_contains(
            store.inbound(target),
            InboundEdgeView { source_id: source, relation_type, weight, created_at: at },
        );
    }
}

/// Adding an edge keeps the two directions paired: the new edge is listed
/// once more under its source and once more under its target, and every
/// other edge as often as before on both sides.
pub proof fn lemma_edge_keeps_pairing(
    store: StorageView,
    source: u128,
    target: u128,
    relation_type: Seq<char>,
    weight: i64,
    at: Timestamp,
)
    requires
        store.paired(),
    ensures
        store.with_edge(source, target, relation_type, weight, at).paired(),
        store.with_edge(source, target, relation_type, weight, at).listed_out(
            source,
            target,
            relation_type,
            weight,
            at,
        ) == store.listed_out(source, target, relation_type, weight, at) + 1,
        store.with_edge(source, target, relation_type, weight, at).listed_in(
            source,
            target,
            relation_type,
            weight,
            at,
        ) == store.listed_in(source, target, relation_type, weight, at) + 1,
{
    broadcast use vstd::multiset::group_multiset_axioms;

    let after = store.with_edge(source, target, relation_type, weight, at);
    let out_entry = EdgeView { target_id: target, relation_type, weight, created_at: at };
    let in_entry = InboundEdgeView { source_id: source, relation_type, weight, created_at: at };
    vstd::seq_lib::to_multiset_build(store.outbound(source), out_entry);
    vstd::seq_lib::to_multiset_build(store.inbound(target), in_entry);
    assert(after.outbound(source) == store.outbound(source).push(out_entry));
    assert(after.inbound(target) == store.inbound(target).push(in_entry));
    assert forall|s: u128, t: u128, r: Seq<char>, w: i64, a: Timestamp|
        #[trigger] after.listed_out(s, t, r, w, a) == after.listed_in(s, t, r, w, a) by {
        let e_out = EdgeView { target_id: t, relation_type: r, weight: w, created_at: a };
        let e_in = InboundEdgeView { source_id: s, relation_type: r, weight: w, created_at: a };
        assert(store.listed_out(s, t, r, w, a) == store.listed_in(s, t, r, w, a));
        let same = s == source && t == target && r == relation_type && w == weight && a == at;
        if s == source {
            assert(after.listed_out(s, t, r, w, a) == store.listed_out(s, t, r, w, a) + if e_out
                == out_entry {
                1nat
            } else {
                0nat
            });
        } else {
            assert(after.outbound(s) == store.outbound(s));
        }
        if t == target {
            assert(after.listed_in(s, t, r, w, a) == store.listed_in(s, t, r, w, a) + if e_in
                == in_entry {
                1nat
            } else {
                0nat
            });
        } else {
            assert(after.inbound(t) == store.inbound(t));
        }
        assert((s == source && e_out == out_entry) == same);
        assert((t == target && e_in == in_entry) == same);
    }
}

} // verus!
