//! The passive data model: memories, their cognitive type and the two
//! directions of an edge, each with its mathematical view.
use std::collections::HashMap;
use vstd::prelude::*;

verus! {

/// One whole in fixed-point representation: a fraction `x` of the domain is
/// held as the integer `x * UNIT`.
pub const UNIT: i64 = 1_000_000;

/// Importance given to a freshly created memory (1.0).
pub const DEFAULT_IMPORTANCE: i64 = 1_000_000;

/// Decay rate given to a freshly created memory (0.1).
pub const DEFAULT_DECAY_RATE: i64 = 100_000;

/// `serde_json::Value`, an arbitrary JSON value. It is opaque to the
/// verifier: the library carries such values and asks `serde_json` about
/// them, but never looks inside.
#[verifier::external_type_specification]
#[verifier::external_body]
pub struct ExJsonValue(serde_json::Value);

/// A point in time, UTC: whole seconds since the Unix epoch and the
/// nanoseconds into that second.
#[derive(Clone, Copy, Debug, PartialEq, Eq, Structural)]
pub struct Timestamp {
    pub secs: i64,
    pub nanos: u32,
}

/// The cognitive classification of a memory, with the payload of each kind.
#[derive(Debug)]
pub enum MemoryType {
    /// An event ("I talked to Mark about coffee").
    Episodic { event_id: Option<u128>, participants: Vec<String>, location: Option<String> },
    /// A fact ("Mark likes dark roast"); `confidence` lies in `0..=UNIT` by convention.
    Semantic { confidence: i64, source: String },
    /// A skill or procedure, with its historical success rate.
    Procedural { success_rate: i64, last_executed: Option<Timestamp> },
    /// An emotional annotation: valence in `-UNIT..=UNIT`, arousal in `0..=UNIT`.
    Emotional { valence: i64, arousal: i64 },
}

/// What a [`MemoryType`] is, over sequences of characters.
pub enum MemoryTypeView {
    Episodic { event_id: Option<u128>, participants: Seq<Seq<char>>, location: Option<Seq<char>> },
    Semantic { confidence: i64, source: Seq<char> },
    Procedural { success_rate: i64, last_executed: Option<Timestamp> },
    Emotional { valence: i64, arousal: i64 },
}

/// The text of each string of a sequence.
pub open spec fn texts(strings: Seq<String>) -> Seq<Seq<char>> {
    strings.map_values(|s: String| s@)
}

/// The text of an optional string.
pub open spec fn opt_text(s: Option<String>) -> Option<Seq<char>> {
    match s {
        Some(t) => Some(t@),
        None => None,
    }
}

impl View for MemoryType {
    type V = MemoryTypeView;

    open spec fn view(&self) -> MemoryTypeView {
        match *self {
            MemoryType::Episodic { event_id, participants, location } => MemoryTypeView::Episodic {
                event_id,
                participants: texts(participants@),
                location: opt_text(location),
            },
            MemoryType::Semantic { confidence, source } => MemoryTypeView::Semantic {
                confidence,
                source: source@,
            },
            MemoryType::Procedural { success_rate, last_executed } => MemoryTypeView::Procedural {
                success_rate,
                last_executed,
            },
            MemoryType::Emotional { valence, arousal } => MemoryTypeView::Emotional {
                valence,
                arousal,
            },
        }
    }
}

impl MemoryTypeView {
    /// The name of the variant, as a filter on `memory_type` spells it.
    pub open spec fn tag(self) -> Seq<char> {
        match self {
            MemoryTypeView::Episodic { .. } => "Episodic"@,
            MemoryTypeView::Semantic { .. } => "Semantic"@,
            MemoryTypeView::Procedural { .. } => "Procedural"@,
            MemoryTypeView::Emotional { .. } => "Emotional"@,
        }
    }
}

/// A copy of a list of strings.
pub fn clone_strings(strings: &Vec<String>) -> (copy: Vec<String>)
    ensures
        copy@ == strings@,
{
    let mut copy: Vec<String> = Vec::new();
    let mut i: usize = 0;
    while i < strings.len()
        invariant
            i <= strings.len(),
            copy@ == strings@.take(i as int),
        decreases strings.len() - i,
    {
        copy.push(strings[i].clone());
        i += 1;
    }
    copy
}

/// A copy of an optional string.
pub fn clone_opt_string(s: &Option<String>) -> (copy: Option<String>)
    ensures
        copy == *s,
{
    match s {
        Some(t) => Some(t.clone()),
        None => None,
    }
}

impl MemoryType {
    /// The name of the variant.
    pub fn tag(&self) -> (name: &'static str)
        ensures
            name@ == self@.tag(),
    {
        match self {
            MemoryType::Episodic { .. } => "Episodic",
            MemoryType::Semantic { .. } => "Semantic",
            MemoryType::Procedural { .. } => "Procedural",
            MemoryType::Emotional { .. } => "Emotional",
        }
    }
}

impl Clone for MemoryType {
    fn clone(&self) -> (copy: Self)
        ensures
            copy@ == self@,
    {
        match self {
            MemoryType::Episodic { event_id, participants, location } => MemoryType::Episodic {
                event_id: *event_id,
                participants: clone_strings(participants),
                location: clone_opt_string(location),
            },
            MemoryType::Semantic { confidence, source } => MemoryType::Semantic {
                confidence: *confidence,
                source: source.clone(),
            },
            MemoryType::Procedural { success_rate, last_executed } => MemoryType::Procedural {
                success_rate: *success_rate,
                last_executed: *last_executed,
            },
            MemoryType::Emotional { valence, arousal } => MemoryType::Emotional {
                valence: *valence,
                arousal: *arousal,
            },
        }
    }
}

/// An outgoing relationship, as it is listed under its source.
#[derive(Debug)]
pub struct Edge {
    pub target_id: u128,
    /// A free-form label such as "relates_to"; no registry of labels exists.
    pub relation_type: String,
    /// In millionths; by convention in `0..=UNIT`, but never clamped.
    pub weight: i64,
    pub created_at: Timestamp,
}

/// What an [`Edge`] is.
pub struct EdgeView {
    pub target_id: u128,
    pub relation_type: Seq<char>,
    pub weight: i64,
    pub created_at: Timestamp,
}

impl View for Edge {
    type V = EdgeView;

    open spec fn view(&self) -> EdgeView {
        EdgeView {
            target_id: self.target_id,
            relation_type: self.relation_type@,
            weight: self.weight,
            created_at: self.created_at,
        }
    }
}

impl Clone for Edge {
    fn clone(&self) -> (copy: Self)
        ensures
            copy == *self,
    {
        Edge {
            target_id: self.target_id,
            relation_type: self.relation_type.clone(),
            weight: self.weight,
            created_at: self.created_at,
        }
    }
}

/// An incoming relationship, as it is listed under its target.
#[derive(Debug)]
pub struct InboundEdge {
    pub source_id: u128,
    pub relation_type: String,
    pub weight: i64,
    pub created_at: Timestamp,
}

/// What an [`InboundEdge`] is.
pub struct InboundEdgeView {
    pub source_id: u128,
    pub relation_type: Seq<char>,
    pub weight: i64,
    pub created_at: Timestamp,
}

impl View for InboundEdge {
    type V = InboundEdgeView;

    open spec fn view(&self) -> InboundEdgeView {
        InboundEdgeView {
            source_id: self.source_id,
            relation_type: self.relation_type@,
            weight: self.weight,
            created_at: self.created_at,
        }
    }
}

impl Clone for InboundEdge {
    fn clone(&self) -> (copy: Self)
        ensures
            copy == *self,
    {
        InboundEdge {
            source_id: self.source_id,
            relation_type: self.relation_type.clone(),
            weight: self.weight,
            created_at: self.created_at,
        }
    }
}

/// The views of a list of outgoing edges, in order.
pub open spec fn edge_views(edges: Seq<Edge>) -> Seq<EdgeView> {
    edges.map_values(|e: Edge| e@)
}

/// The views of a list of incoming edges, in order.
pub open spec fn inbound_views(edges: Seq<InboundEdge>) -> Seq<InboundEdgeView> {
    edges.map_values(|e: InboundEdge| e@)
}

/// A copy of a list of outgoing edges.
pub fn clone_edges(edges: &Vec<Edge>) -> (copy: Vec<Edge>)
    ensures
        copy@ == edges@,
{
    let mut copy: Vec<Edge> = Vec::new();
    let mut i: usize = 0;
    while i < edges.len()
        invariant
            i <= edges.len(),
            copy@ == edges@.take(i as int),
        decreases edges.len() - i,
    {
        copy.push(edges[i].clone());
        i += 1;
    }
    copy
}

/// A copy of a list of incoming edges.
pub fn clone_inbound_edges(edges: &Vec<InboundEdge>) -> (copy: Vec<InboundEdge>)
    ensures
        copy@ == edges@,
{
    let mut copy: Vec<InboundEdge> = Vec::new();
    let mut i: usize = 0;
    while i < edges.len()
        invariant
            i <= edges.len(),
            copy@ == edges@.take(i as int),
        decreases edges.len() - i,
    {
        copy.push(edges[i].clone());
        i += 1;
    }
    copy
}

/// The unit of storage.
#[derive(Debug)]
pub struct Memory {
    /// Unique and time-orderable; never changed after creation.
    pub id: u128,
    /// The text payload.
    pub content: String,
    /// The embedding, each component in millionths.
    pub embedding: Vec<i32>,
    pub memory_type: MemoryType,
    /// Open key/value annotations (user, source and the like).
    pub metadata: HashMap<String, serde_json::Value>,
    /// Outgoing edges carried on the record itself. The store's adjacency
    /// tables, not this list, are what traversal reads.
    pub edges: Vec<Edge>,
    pub created_at: Timestamp,
    pub last_accessed_at: Timestamp,
    pub access_count: u64,
    /// In millionths.
    pub importance: i64,
    /// In millionths.
    pub decay_rate: i64,
}

/// What a [`Memory`] is: two memories with the same view are deep-equal.
pub struct MemoryView {
    pub id: u128,
    pub content: Seq<char>,
    pub embedding: Seq<i32>,
    pub memory_type: MemoryTypeView,
    pub metadata: Map<String, serde_json::Value>,
    pub edges: Seq<EdgeView>,
    pub created_at: Timestamp,
    pub last_accessed_at: Timestamp,
    pub access_count: u64,
    pub importance: i64,
    pub decay_rate: i64,
}

impl View for Memory {
    type V = MemoryView;

    open spec fn view(&self) -> MemoryView {
        MemoryView {
            id: self.id,
            content: self.content@,
            embedding: self.embedding@,
            memory_type: self.memory_type@,
            metadata: self.metadata@,
            edges: edge_views(self.edges@),
            created_at: self.created_at,
            last_accessed_at: self.last_accessed_at,
            access_count: self.access_count,
            importance: self.importance,
            decay_rate: self.decay_rate,
        }
    }
}

impl Clone for Memory {
    fn clone(&self) -> (copy: Self)
        ensures
            copy@ == self@,
    {
        Memory {
            id: self.id,
            content: self.content.clone(),
            embedding: self.embedding.clone(),
            memory_type: self.memory_type.clone(),
            metadata: self.metadata.clone(),
            edges: clone_edges(&self.edges),
            created_at: self.created_at,
            last_accessed_at: self.last_accessed_at,
            access_count: self.access_count,
            importance: self.importance,
            decay_rate: self.decay_rate,
        }
    }
}

/// Calls `uuid::Uuid::now_v7` and hands the identifier out as the 128-bit
/// number that `Uuid::as_u128` gives (big-endian). The identifier comes from
/// the clock and a random source, so all that is promised of it is what
/// every version 7 UUID has: the version 7 in bits 76 to 79 and the variant
/// `10` in bits 62 and 63. `Uuid::now_v7` gives up on a machine whose clock
/// stands before 1970 or whose random source fails.
#[verifier::external_body]
pub(crate) fn fresh_id() -> (id: u128)
    ensures
        (id >> 76) & 0xf == 7,
        (id >> 62) & 0x3 == 2,
{
    uuid::Uuid::now_v7().as_u128()
}

/// Calls `chrono::Utc::now` and hands the instant out as the seconds that
/// `DateTime::timestamp` gives and the nanoseconds that
/// `DateTime::timestamp_subsec_nanos` gives. Nothing is promised of the
/// result. `Utc::now` gives up on a machine whose clock stands before 1970.
#[verifier::external_body]
pub(crate) fn current_time() -> (now: Timestamp) {
    let now = chrono::Utc::now();
    Timestamp { secs: now.timestamp(), nanos: now.timestamp_subsec_nanos() }
}

impl Memory {
    /// A new memory with the given identity and creation time, and every
    /// other field at its default: no metadata, no edges, never accessed,
    /// full importance, the default decay rate.
    pub fn with_identity(
        id: u128,
        now: Timestamp,
        content: String,
        embedding: Vec<i32>,
        memory_type: MemoryType,
    ) -> (memory: Memory)
        ensures
            memory@ == (MemoryView {
                id,
                content: content@,
                embedding: embedding@,
                memory_type: memory_type@,
                metadata: Map::empty(),
                edges: Seq::empty(),
                created_at: now,
                last_accessed_at: now,
                access_count: 0,
                importance: DEFAULT_IMPORTANCE,
                decay_rate: DEFAULT_DECAY_RATE,
            }),
    {
        let memory = Memory {
            id,
            content,
            embedding,
            memory_type,
            metadata: HashMap::new(),
            edges: Vec::new(),
            created_at: now,
            last_accessed_at: now,
            access_count: 0,
            importance: DEFAULT_IMPORTANCE,
            decay_rate: DEFAULT_DECAY_RATE,
        };
        assert(memory@.edges =~= Seq::empty());
        memory
    }

    /// A new memory with a fresh time-ordered identifier, created now.
    /// Whatever identifier and instant the system hands out, the memory is
    /// the one [`Memory::with_identity`] builds from them, and the
    /// identifier is a version 7 UUID.
    pub fn new(content: String, embedding: Vec<i32>, memory_type: MemoryType) -> (memory: Memory)
        ensures
            (memory.id >> 76) & 0xf == 7,
            (memory.id >> 62) & 0x3 == 2,
            memory@ == (MemoryView {
                id: memory.id,
                content: content@,
                embedding: embedding@,
                memory_type: memory_type@,
                metadata: Map::empty(),
                edges: Seq::empty(),
                created_at: memory.created_at,
                last_accessed_at: memory.created_at,
                access_count: 0,
                importance: DEFAULT_IMPORTANCE,
                decay_rate: DEFAULT_DECAY_RATE,
            }),
    {
        let now = current_time();
        let id: u128 = fresh_id();
        Memory::with_identity(id, now, content, embedding, memory_type)
    }
}

} // verus!
