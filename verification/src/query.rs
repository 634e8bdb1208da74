//! The request types of a hybrid query, and what the library reads out of
//! them.
use crate::index::IndexError;
use crate::models::MemoryView;
use vstd::prelude::*;

pub mod engine;

verus! {

/// A hybrid retrieval request. Every part is optional.
#[derive(Debug)]
pub struct Query {
    /// Criteria every result has to meet.
    pub filter: Option<Filter>,
    /// The similarity search that seeds the candidates.
    pub search: Option<Search>,
    /// The graph expansion from the candidates that survive the filter.
    pub traverse: Option<Traverse>,
    /// Accepted and carried, not interpreted.
    pub rank_by: Option<RankBy>,
    /// The largest number of results wanted.
    pub limit: Option<usize>,
}

/// An open set of criteria: a JSON object. The members `id` and
/// `memory_type` are read, all others are ignored. A member that is there
/// has to be met: one that spells no id, or no variant name, is met by no
/// record.
#[derive(Debug)]
pub struct Filter {
    pub criteria: serde_json::Value,
}

/// The search part of a query.
#[derive(Debug)]
pub struct Search {
    pub vector: VectorSearch,
}

/// A similarity search. Only `embedding` is read: turning `text` into an
/// embedding is the caller's business, and `threshold` is not enforced.
#[derive(Debug)]
pub struct VectorSearch {
    pub text: Option<String>,
    /// The query embedding, each component in millionths.
    pub embedding: Option<Vec<i32>>,
    /// In millionths.
    pub threshold: Option<i64>,
}

/// A graph expansion. One hop is made, whatever `depth` says, along edges
/// of every type, whatever `edge_types` says.
#[derive(Debug)]
pub struct Traverse {
    /// One of "outbound", "inbound" and "both".
    pub direction: String,
    pub edge_types: Option<Vec<String>>,
    pub depth: Option<u32>,
}

/// A custom ranking. Accepted and carried, not interpreted.
#[derive(Debug)]
pub struct RankBy {
    pub formula: String,
}

/// The direction of a graph expansion.
#[derive(Clone, Copy, Debug, PartialEq, Eq, Structural)]
pub enum Direction {
    Outbound,
    Inbound,
    Both,
}

/// Why a query was not answered.
#[derive(Clone, Copy, Debug, PartialEq, Eq, Structural)]
pub enum QueryError {
    /// The direction of the traversal is none of the three known ones.
    InvalidDirection,
    /// The vector index failed the seeding search.
    Index(IndexError),
}

impl Direction {
    /// Whether outgoing edges are followed.
    pub open spec fn outbound(self) -> bool {
        self == Direction::Outbound || self == Direction::Both
    }

    /// Whether incoming edges are followed.
    pub open spec fn inbound(self) -> bool {
        self == Direction::Inbound || self == Direction::Both
    }

    /// The direction that `text` names, if it names one.
    pub open spec fn named(text: Seq<char>) -> Option<Direction> {
        if text == "outbound"@ {
            Some(Direction::Outbound)
        } else if text == "inbound"@ {
            Some(Direction::Inbound)
        } else if text == "both"@ {
            Some(Direction::Both)
        } else {
            None
        }
    }

    /// Whether outgoing edges are followed.
    pub fn follows_outbound(&self) -> (yes: bool)
        ensures
            yes == self.outbound(),
    {
        match self {
            Direction::Outbound => true,
            Direction::Inbound => false,
            Direction::Both => true,
        }
    }

    /// Whether incoming edges are followed.
    pub fn follows_inbound(&self) -> (yes: bool)
        ensures
            yes == self.inbound(),
    {
        match self {
            Direction::Outbound => false,
            Direction::Inbound => true,
            Direction::Both => true,
        }
    }

    /// Reads a direction: "outbound", "inbound" or "both", spelled exactly
    /// so. Anything else names none.
    pub fn parse(text: &str) -> (direction: Option<Direction>)
        ensures
            direction == Direction::named(text@),
    {
        if same_text(text, "outbound") {
            Some(Direction::Outbound)
        } else if same_text(text, "inbound") {
            Some(Direction::Inbound)
        } else if same_text(text, "both") {
            Some(Direction::Both)
        } else {
            None
        }
    }
}

/// Whether two strings hold the same text.
pub fn same_text(a: &str, b: &str) -> (same: bool)
    ensures
        same <==> a@ == b@,
{
    let left: String = a.to_owned();
    let right: String = b.to_owned();
    left == right
}

/// What one criterion of a filter asks of a record.
#[derive(Debug, PartialEq, Eq)]
pub enum Criterion<T> {
    /// The filter does not name the criterion: every record meets it.
    Absent,
    /// The filter names the criterion with a value that no record can have:
    /// no record meets it.
    Unmeetable,
    /// The filter asks for exactly this value.
    Wanted(T),
}

/// A criterion on text, over the characters of the text.
pub open spec fn criterion_text(criterion: Criterion<String>) -> Criterion<Seq<char>> {
    match criterion {
        Criterion::Absent => Criterion::Absent,
        Criterion::Unmeetable => Criterion::Unmeetable,
        Criterion::Wanted(text) => Criterion::Wanted(text@),
    }
}

/// The keys of a JSON value: for an object, the keys of its members,
/// whatever their values; none for a value that is no object.
pub uninterp spec fn json_keys(value: serde_json::Value) -> Set<Seq<char>>;

/// What a JSON value holds as string members: for an object, each key whose
/// value is a JSON string, with the text of that string. A value that is no
/// object holds none.
pub uninterp spec fn json_strings(value: serde_json::Value) -> Map<Seq<char>, Seq<char>>;

/// The identifier that `uuid::Uuid::parse_str` reads out of `text`, as the
/// 128-bit number that `Uuid::as_u128` gives; `None` where the parser
/// rejects the text.
pub uninterp spec fn uuid_of_text(text: Seq<char>) -> Option<u128>;

/// Calls `serde_json::Value::get` with `key` and says whether it found a
/// member: it does where the value is an object that has the key, whatever
/// stands under it.
#[verifier::external_body]
pub(crate) fn has_member(value: &serde_json::Value, key: &str) -> (present: bool)
    ensures
        present == json_keys(*value).contains(key@),
{
    value.get(key).is_some()
}

/// Calls `serde_json::Value::get` with `key` and, on what it finds,
/// `Value::as_str`: the text under `key`, where the value is an object that
/// has the key with a JSON string under it, and `None` otherwise.
#[verifier::external_body]
pub(crate) fn string_member(value: &serde_json::Value, key: &str) -> (member: Option<String>)
    ensures
        match member {
            Some(text) => json_strings(*value).contains_key(key@) && json_strings(*value)[key@]
                == text@,
            None => !json_strings(*value).contains_key(key@),
        },
{
    value.get(key).and_then(|found| found.as_str()).map(|text| text.to_owned())
}

/// Calls `uuid::Uuid::parse_str` and converts an accepted identifier with
/// `Uuid::as_u128`. The contract only names the outcome: it is a function
/// of the text.
#[verifier::external_body]
pub(crate) fn parse_uuid(text: &str) -> (id: Option<u128>)
    ensures
        id == uuid_of_text(text@),
{
    uuid::Uuid::parse_str(text).ok().map(|id| id.as_u128())
}

impl Filter {
    /// What the criteria ask of a record's id. Without a member `id` they
    /// ask nothing. With one, they ask for the id that the member spells: a
    /// string that reads as a UUID. A member that is no string, or a string
    /// that is no UUID, spells an id that no record has.
    pub open spec fn wanted_id(&self) -> Criterion<u128> {
        if !json_keys(self.criteria).contains("id"@) {
            Criterion::Absent
        } else if json_strings(self.criteria).contains_key("id"@) {
            match uuid_of_text(json_strings(self.criteria)["id"@]) {
                Some(id) => Criterion::Wanted(id),
                None => Criterion::Unmeetable,
            }
        } else {
            Criterion::Unmeetable
        }
    }

    /// What the criteria ask of a record's variant. Without a member
    /// `memory_type` they ask nothing. With one, they ask for the variant
    /// of that name; a member that is no string names a variant that no
    /// record has.
    pub open spec fn wanted_type(&self) -> Criterion<Seq<char>> {
        if !json_keys(self.criteria).contains("memory_type"@) {
            Criterion::Absent
        } else if json_strings(self.criteria).contains_key("memory_type"@) {
            Criterion::Wanted(json_strings(self.criteria)["memory_type"@])
        } else {
            Criterion::Unmeetable
        }
    }

    /// What the criteria ask of a record's id, see [`Filter::wanted_id`].
    pub fn id_criterion(&self) -> (id: Criterion<u128>)
        ensures
            id == self.wanted_id(),
    {
        if !has_member(&self.criteria, "id") {
            Criterion::Absent
        } else {
            match string_member(&self.criteria, "id") {
                Some(text) => match parse_uuid(text.as_str()) {
                    Some(id) => Criterion::Wanted(id),
                    None => Criterion::Unmeetable,
                },
                None => Criterion::Unmeetable,
            }
        }
    }

    /// What the criteria ask of a record's variant, see
    /// [`Filter::wanted_type`].
    pub fn type_criterion(&self) -> (name: Criterion<String>)
        ensures
            criterion_text(name) == self.wanted_type(),
    {
        if !has_member(&self.criteria, "memory_type") {
            Criterion::Absent
        } else {
            match string_member(&self.criteria, "memory_type") {
                Some(text) => Criterion::Wanted(text),
                None => Criterion::Unmeetable,
            }
        }
    }
}

/// Whether a record meets the two criteria. A criterion that is absent is
/// met by every record, one that is present only by a record that has
/// exactly the wanted id, or a variant of exactly the wanted name.
pub open spec fn meets(memory: MemoryView, id: Criterion<u128>, kind: Criterion<Seq<char>>) -> bool {
    &&& match id {
        Criterion::Absent => true,
        Criterion::Unmeetable => false,
        Criterion::Wanted(wanted) => memory.id == wanted,
    }
    &&& match kind {
        Criterion::Absent => true,
        Criterion::Unmeetable => false,
        Criterion::Wanted(wanted) => memory.memory_type.tag() == wanted,
    }
}

} // verus!
