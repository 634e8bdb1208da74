use memory_graph::index::{IndexError, SimpleVectorIndex, VectorIndex};
use memory_graph::models::{Memory, MemoryType, Timestamp, UNIT};
use memory_graph::query::engine::{
    halve, matches_criteria, respond, scan, CandidateSet, QueryEngine,
};
use memory_graph::query::{
    same_text, Criterion, Direction, Filter, Query, QueryError, RankBy, Search, Traverse,
    VectorSearch,
};
use memory_graph::storage::StorageManager;

const A: u128 = 0x018f_0000_0000_7000_8000_0000_0000_000a;
const B: u128 = 0x018f_0000_0000_7000_8000_0000_0000_000b;
const C: u128 = 0x018f_0000_0000_7000_8000_0000_0000_000c;
const D: u128 = 0x018f_0000_0000_7000_8000_0000_0000_000d;

fn semantic(id: u128, embedding: Vec<i32>) -> Memory {
    Memory::with_identity(
        id,
        Timestamp { secs: 1_700_000_000, nanos: 0 },
        format!("memory {:x}", id & 0xf),
        embedding,
        MemoryType::Semantic { confidence: UNIT, source: "test".to_string() },
    )
}

fn episodic(id: u128, embedding: Vec<i32>) -> Memory {
    Memory::with_identity(
        id,
        Timestamp { secs: 1_700_000_000, nanos: 0 },
        format!("memory {:x}", id & 0xf),
        embedding,
        MemoryType::Episodic { event_id: None, participants: vec![], location: None },
    )
}

fn criteria(pairs: &[(&str, serde_json::Value)]) -> Filter {
    let mut object = serde_json::Map::new();
    for (key, value) in pairs {
        object.insert(key.to_string(), value.clone());
    }
    Filter { criteria: serde_json::Value::Object(object) }
}

fn text(s: &str) -> serde_json::Value {
    serde_json::Value::String(s.to_string())
}

fn hyphenated(id: u128) -> String {
    uuid::Uuid::from_u128(id).hyphenated().to_string()
}

fn query() -> Query {
    Query { filter: None, search: None, traverse: None, rank_by: None, limit: None }
}

fn with_embedding(embedding: Vec<i32>, limit: Option<usize>) -> Query {
    Query {
        filter: None,
        search: Some(Search {
            vector: VectorSearch { text: None, embedding: Some(embedding), threshold: None },
        }),
        traverse: None,
        rank_by: None,
        limit,
    }
}

fn traverse(direction: &str) -> Option<Traverse> {
    Some(Traverse { direction: direction.to_string(), edge_types: None, depth: None })
}

fn ids(result: &[Memory]) -> Vec<u128> {
    result.iter().map(|m| m.id).collect()
}

/// A and B with the same embedding, plus the edge A -> B.
fn two_alike() -> (StorageManager, SimpleVectorIndex) {
    let mut store = StorageManager::new();
    let mut index = SimpleVectorIndex::new();
    for id in [A, B] {
        let m = semantic(id, vec![1_000_000, 0, 0]);
        store.save_memory(&m);
        index.add(m.id, &m.embedding).unwrap();
    }
    store.add_edge(A, B, "x".to_string(), 800_000);
    (store, index)
}

#[test]
fn halve_rounds_toward_zero() {
    assert_eq!(halve(UNIT), 500_000);
    assert_eq!(halve(0), 0);
    assert_eq!(halve(1), 0);
    assert_eq!(halve(3), 1);
    assert_eq!(halve(-1), 0);
    assert_eq!(halve(-3), -1);
    assert_eq!(halve(-UNIT), -500_000);
    assert_eq!(halve(i64::MAX), i64::MAX / 2);
    assert_eq!(halve(i64::MIN), i64::MIN / 2);
}

#[test]
fn same_text_compares_whole_strings() {
    assert!(same_text("both", "both"));
    assert!(same_text("", ""));
    assert!(!same_text("both", "Both"));
    assert!(!same_text("both", "both "));
}

#[test]
fn direction_is_read_from_its_exact_name() {
    assert_eq!(Direction::parse("outbound"), Some(Direction::Outbound));
    assert_eq!(Direction::parse("inbound"), Some(Direction::Inbound));
    assert_eq!(Direction::parse("both"), Some(Direction::Both));
    assert_eq!(Direction::parse("Outbound"), None);
    assert_eq!(Direction::parse(""), None);
    assert_eq!(Direction::parse("sideways"), None);
    assert!(Direction::Both.follows_outbound() && Direction::Both.follows_inbound());
    assert!(Direction::Outbound.follows_outbound() && !Direction::Outbound.follows_inbound());
    assert!(!Direction::Inbound.follows_outbound() && Direction::Inbound.follows_inbound());
}

#[test]
fn filter_reads_its_string_members() {
    let f = criteria(&[("id", text(&hyphenated(A))), ("memory_type", text("Semantic"))]);
    assert_eq!(f.id_criterion(), Criterion::Wanted(A));
    assert_eq!(f.type_criterion(), Criterion::Wanted("Semantic".to_string()));
}

#[test]
fn filter_without_a_member_asks_nothing() {
    let empty = criteria(&[]);
    assert_eq!(empty.id_criterion(), Criterion::Absent);
    assert_eq!(empty.type_criterion(), Criterion::Absent);
    let other = criteria(&[("user", text("mark"))]);
    assert_eq!(other.id_criterion(), Criterion::Absent);
    assert_eq!(other.type_criterion(), Criterion::Absent);
    // A value that is no object has no members.
    let not_an_object = Filter { criteria: text("id") };
    assert_eq!(not_an_object.id_criterion(), Criterion::Absent);
    assert_eq!(not_an_object.type_criterion(), Criterion::Absent);
    let null = Filter { criteria: serde_json::Value::Null };
    assert_eq!(null.id_criterion(), Criterion::Absent);
}

#[test]
fn filter_reads_every_uuid_format() {
    let simple = uuid::Uuid::from_u128(A).simple().to_string();
    let urn = uuid::Uuid::from_u128(A).urn().to_string();
    assert_eq!(criteria(&[("id", text(&simple))]).id_criterion(), Criterion::Wanted(A));
    assert_eq!(criteria(&[("id", text(&urn))]).id_criterion(), Criterion::Wanted(A));
    assert_eq!(
        criteria(&[("id", text("00000000-0000-0000-0000-000000000001"))]).id_criterion(),
        Criterion::Wanted(1)
    );
}

#[test]
fn a_present_member_that_spells_no_value_is_unmeetable() {
    let f = criteria(&[
        ("id", serde_json::Value::from(17)),
        ("memory_type", serde_json::Value::Bool(true)),
    ]);
    assert_eq!(f.id_criterion(), Criterion::Unmeetable);
    assert_eq!(f.type_criterion(), Criterion::Unmeetable);
    let unreadable = criteria(&[("id", text("not-a-uuid"))]);
    assert_eq!(unreadable.id_criterion(), Criterion::Unmeetable);
    assert_eq!(unreadable.type_criterion(), Criterion::Absent);
    let null = criteria(&[("id", serde_json::Value::Null)]);
    assert_eq!(null.id_criterion(), Criterion::Unmeetable);
    let empty = criteria(&[("id", text(""))]);
    assert_eq!(empty.id_criterion(), Criterion::Unmeetable);
}

#[test]
fn matches_criteria_tests_id_and_variant() {
    let m = semantic(A, vec![]);
    let kind = |name: &str| Criterion::Wanted(name.to_string());
    assert!(matches_criteria(&m, &Criterion::Absent, &Criterion::Absent));
    assert!(matches_criteria(&m, &Criterion::Wanted(A), &Criterion::Absent));
    assert!(!matches_criteria(&m, &Criterion::Wanted(B), &Criterion::Absent));
    assert!(matches_criteria(&m, &Criterion::Absent, &kind("Semantic")));
    assert!(!matches_criteria(&m, &Criterion::Absent, &kind("Episodic")));
    assert!(!matches_criteria(&m, &Criterion::Absent, &kind("semantic")));
    assert!(matches_criteria(&m, &Criterion::Wanted(A), &kind("Semantic")));
    assert!(!matches_criteria(&m, &Criterion::Wanted(A), &kind("Emotional")));
    assert!(!matches_criteria(&m, &Criterion::Wanted(B), &kind("Semantic")));
    assert!(!matches_criteria(&m, &Criterion::Unmeetable, &Criterion::Absent));
    assert!(!matches_criteria(&m, &Criterion::Absent, &Criterion::Unmeetable));
    assert!(!matches_criteria(&m, &Criterion::Wanted(A), &Criterion::Unmeetable));
    assert!(!matches_criteria(&m, &Criterion::Unmeetable, &kind("Semantic")));
}

#[test]
fn matches_filter_reads_the_criteria() {
    let store = StorageManager::new();
    let index = SimpleVectorIndex::new();
    let engine = QueryEngine::new(&store, &index);
    let m = episodic(A, vec![]);
    assert!(engine.matches_filter(&m, &criteria(&[])));
    assert!(engine.matches_filter(&m, &criteria(&[("id", text(&hyphenated(A)))])));
    assert!(!engine.matches_filter(&m, &criteria(&[("id", text(&hyphenated(B)))])));
    assert!(engine.matches_filter(&m, &criteria(&[("memory_type", text("Episodic"))])));
    assert!(!engine.matches_filter(&m, &criteria(&[("memory_type", text("Semantic"))])));
    assert!(!engine.matches_filter(
        &m,
        &criteria(&[("id", text(&hyphenated(A))), ("memory_type", text("Semantic"))])
    ));
    // Members that the engine does not read ask for nothing.
    assert!(engine.matches_filter(&m, &criteria(&[("user", text("mark"))])));
}

#[test]
fn no_record_meets_a_present_criterion_that_spells_no_value() {
    let store = StorageManager::new();
    let index = SimpleVectorIndex::new();
    let engine = QueryEngine::new(&store, &index);
    let m = episodic(A, vec![]);
    assert!(!engine.matches_filter(&m, &criteria(&[("id", text("not-a-uuid"))])));
    assert!(!engine.matches_filter(&m, &criteria(&[("id", serde_json::Value::from(42))])));
    assert!(!engine.matches_filter(&m, &criteria(&[("id", serde_json::Value::Null)])));
    assert!(!engine.matches_filter(
        &m,
        &criteria(&[("memory_type", serde_json::Value::from(7))])
    ));
    assert!(!engine.matches_filter(
        &m,
        &criteria(&[("id", text("garbage")), ("memory_type", text("Episodic"))])
    ));
    assert!(!engine.matches_filter(
        &m,
        &criteria(&[("id", text(&hyphenated(A))), ("memory_type", serde_json::Value::Null)])
    ));
}

#[test]
fn a_query_with_an_unmeetable_criterion_returns_nothing() {
    let (store, index) = two_alike();
    let engine = QueryEngine::new(&store, &index);
    for value in [text("not-a-uuid"), serde_json::Value::from(42), serde_json::Value::Null] {
        let mut q = with_embedding(vec![1_000_000, 0, 0], Some(5));
        q.filter = Some(criteria(&[("id", value.clone())]));
        assert!(engine.execute(q).unwrap().is_empty());
        let mut q = query();
        q.filter = Some(criteria(&[("id", value)]));
        q.traverse = traverse("both");
        assert!(engine.execute(q).unwrap().is_empty());
    }
    let mut q = query();
    q.filter = Some(criteria(&[("memory_type", serde_json::Value::Bool(false))]));
    assert!(engine.execute(q).unwrap().is_empty());
}

#[test]
fn scenario_two_alike_without_traversal() {
    let (store, index) = two_alike();
    let engine = QueryEngine::new(&store, &index);
    let result = engine.execute(with_embedding(vec![1_000_000, 0, 0], Some(5))).unwrap();
    assert_eq!(ids(&result), vec![A, B]);
    let hits = index.search(&[1_000_000, 0, 0], 5).unwrap();
    assert_eq!(hits, vec![(A, UNIT), (B, UNIT)]);
}

#[test]
fn scenario_traversal_from_a_reaches_b_with_half_the_score() {
    let (store, index) = two_alike();
    let engine = QueryEngine::new(&store, &index);
    let mut q = with_embedding(vec![1_000_000, 0, 0], Some(5));
    q.filter = Some(criteria(&[("id", text(&hyphenated(A)))]));
    q.traverse = traverse("outbound");
    let result = engine.execute(q).unwrap();
    assert_eq!(ids(&result), vec![A, B]);

    // The same query stage by stage, to see the scores.
    let seeds = index.search(&[1_000_000, 0, 0], 5).unwrap();
    assert_eq!(seeds, vec![(A, UNIT), (B, UNIT)]);
    let kept = CandidateSet::seeded(&seeds).retain_matching(&store, &Criterion::Wanted(A), &Criterion::Absent);
    assert_eq!(kept.ids(), vec![A]);
    assert_eq!(kept.score_of(A), Some(UNIT));
    assert_eq!(kept.score_of(B), None);
    let reached = kept.expand(&store, Direction::Outbound);
    assert_eq!(reached.ids(), vec![A, B]);
    assert_eq!(reached.score_of(A), Some(UNIT));
    assert_eq!(reached.score_of(B), Some(500_000));
}

#[test]
fn traversal_scores_what_the_index_did_not_find() {
    let (mut store, mut index) = two_alike();
    // C is stored and linked from A, but not indexed: only traversal finds it.
    store.save_memory(&semantic(C, vec![0, 1_000_000, 0]));
    store.add_edge(A, C, "x".to_string(), 800_000);
    index.add(D, &[0, 0, 1_000_000]).unwrap();
    let engine = QueryEngine::new(&store, &index);
    let mut q = with_embedding(vec![1_000_000, 0, 0], Some(5));
    q.traverse = traverse("outbound");
    // A and B score 1.0, C is reached from A and scores 0.5, D scores 0 and
    // has no record.
    assert_eq!(ids(&engine.execute(q).unwrap()), vec![A, B, C]);

    let seeds = index.search(&[1_000_000, 0, 0], 5).unwrap();
    let reached = CandidateSet::seeded(&seeds).expand(&store, Direction::Outbound);
    assert_eq!(reached.ids(), vec![A, B, D, C]);
    assert_eq!(reached.score_of(B), Some(UNIT));
    assert_eq!(reached.score_of(C), Some(500_000));
    assert_eq!(reached.score_of(D), Some(0));
}

#[test]
fn a_seed_that_is_reached_keeps_its_score() {
    let (store, index) = two_alike();
    let seeds = index.search(&[1_000_000, 0, 0], 5).unwrap();
    let reached = CandidateSet::seeded(&seeds).expand(&store, Direction::Outbound);
    assert_eq!(reached.ids(), vec![A, B]);
    assert_eq!(reached.score_of(B), Some(UNIT));
}

#[test]
fn fallback_scan_seeds_every_memory_with_score_one() {
    let mut store = StorageManager::new();
    for id in [C, A, B] {
        store.save_memory(&semantic(id, vec![1, 2, 3]));
    }
    assert_eq!(scan(&store), vec![(A, UNIT), (B, UNIT), (C, UNIT)]);
    let index = SimpleVectorIndex::new();
    let engine = QueryEngine::new(&store, &index);
    let result = engine.execute(query()).unwrap();
    assert_eq!(ids(&result), vec![A, B, C]);
    // A search part without an embedding falls back as well.
    let mut q = query();
    q.search = Some(Search {
        vector: VectorSearch { text: Some("coffee".to_string()), embedding: None, threshold: None },
    });
    assert_eq!(ids(&engine.execute(q).unwrap()), vec![A, B, C]);
}

#[test]
fn limit_bounds_the_result() {
    let mut store = StorageManager::new();
    let mut index = SimpleVectorIndex::new();
    for i in 0..20u128 {
        let m = semantic(100 + i, vec![1_000_000, (i as i32) * 1000]);
        store.save_memory(&m);
        index.add(m.id, &m.embedding).unwrap();
        store.add_edge(100 + i, 100 + (i + 1) % 20, "next".to_string(), 1);
    }
    let engine = QueryEngine::new(&store, &index);
    for limit in [0usize, 1, 3, 19, 20, 50] {
        let mut q = query();
        q.limit = Some(limit);
        assert_eq!(engine.execute(q).unwrap().len(), limit.min(20));
        let mut q = with_embedding(vec![1_000_000, 0], Some(limit));
        q.traverse = traverse("both");
        assert!(engine.execute(q).unwrap().len() <= limit);
    }
}

#[test]
fn search_without_a_limit_asks_for_ten() {
    let mut store = StorageManager::new();
    let mut index = SimpleVectorIndex::new();
    for i in 0..15u128 {
        let m = semantic(100 + i, vec![1_000_000, (i as i32) * 1000]);
        store.save_memory(&m);
        index.add(m.id, &m.embedding).unwrap();
    }
    let engine = QueryEngine::new(&store, &index);
    let result = engine.execute(with_embedding(vec![1_000_000, 0], None)).unwrap();
    assert_eq!(ids(&result), (100..110).collect::<Vec<u128>>());
}

#[test]
fn unknown_direction_is_a_query_error() {
    let (store, index) = two_alike();
    let engine = QueryEngine::new(&store, &index);
    let mut q = with_embedding(vec![1_000_000, 0, 0], Some(5));
    q.traverse = traverse("sideways");
    assert_eq!(engine.execute(q).unwrap_err(), QueryError::InvalidDirection);
    // The direction is checked before the index is asked.
    let mut q = with_embedding(vec![1_000_000, 0], Some(5));
    q.traverse = traverse("");
    assert_eq!(engine.execute(q).unwrap_err(), QueryError::InvalidDirection);
}

#[test]
fn index_failure_aborts_the_query() {
    let (store, index) = two_alike();
    let engine = QueryEngine::new(&store, &index);
    let q = with_embedding(vec![1_000_000, 0], Some(5));
    assert_eq!(
        engine.execute(q).unwrap_err(),
        QueryError::Index(IndexError::DimensionMismatch)
    );
}

#[test]
fn candidates_without_a_record_are_dropped() {
    let (mut store, mut index) = two_alike();
    index.add(D, &[1_000_000, 0, 0]).unwrap();
    store.add_edge(A, C, "x".to_string(), 1);
    let engine = QueryEngine::new(&store, &index);
    let mut q = with_embedding(vec![1_000_000, 0, 0], Some(5));
    q.traverse = traverse("outbound");
    // D is indexed and C is linked, but neither is stored.
    assert_eq!(ids(&engine.execute(q).unwrap()), vec![A, B]);
}

#[test]
fn filter_by_memory_type_narrows_the_seeds() {
    let mut store = StorageManager::new();
    store.save_memory(&semantic(A, vec![]));
    store.save_memory(&episodic(B, vec![]));
    store.save_memory(&semantic(C, vec![]));
    let index = SimpleVectorIndex::new();
    let engine = QueryEngine::new(&store, &index);
    let mut q = query();
    q.filter = Some(criteria(&[("memory_type", text("Semantic"))]));
    assert_eq!(ids(&engine.execute(q).unwrap()), vec![A, C]);
    let mut q = query();
    q.filter = Some(criteria(&[("memory_type", text("Procedural"))]));
    assert!(engine.execute(q).unwrap().is_empty());
}

#[test]
fn traversal_follows_the_asked_direction_only() {
    let mut store = StorageManager::new();
    for id in [A, B, C] {
        store.save_memory(&semantic(id, vec![]));
    }
    store.add_edge(A, B, "x".to_string(), 1);
    store.add_edge(C, A, "x".to_string(), 1);
    let mut index = SimpleVectorIndex::new();
    index.add(A, &[1]).unwrap();
    let engine = QueryEngine::new(&store, &index);
    let run = |direction: &str| {
        let mut q = with_embedding(vec![1], Some(5));
        q.traverse = traverse(direction);
        ids(&engine.execute(q).unwrap())
    };
    assert_eq!(run("outbound"), vec![A, B]);
    assert_eq!(run("inbound"), vec![A, C]);
    assert_eq!(run("both"), vec![A, B, C]);
}

#[test]
fn traversal_makes_one_hop_whatever_the_depth() {
    let mut store = StorageManager::new();
    for id in [A, B, C] {
        store.save_memory(&semantic(id, vec![]));
    }
    store.add_edge(A, B, "x".to_string(), 1);
    store.add_edge(B, C, "x".to_string(), 1);
    let mut index = SimpleVectorIndex::new();
    index.add(A, &[1]).unwrap();
    let engine = QueryEngine::new(&store, &index);
    let mut q = with_embedding(vec![1], Some(5));
    q.traverse = Some(Traverse {
        direction: "outbound".to_string(),
        edge_types: Some(vec!["y".to_string()]),
        depth: Some(3),
    });
    q.rank_by = Some(RankBy { formula: "score * importance".to_string() });
    assert_eq!(ids(&engine.execute(q).unwrap()), vec![A, B]);
}

#[test]
fn first_discovery_decides_the_score() {
    let mut store = StorageManager::new();
    for id in [A, B, C] {
        store.save_memory(&semantic(id, vec![]));
    }
    // C is reached from A (score 800_000) first and from B (score 400_000) second.
    store.add_edge(A, C, "x".to_string(), 1);
    store.add_edge(B, C, "x".to_string(), 1);
    let seeds = vec![(A, 800_000), (B, 400_000)];
    let candidates = CandidateSet::seeded(&seeds).expand(&store, Direction::Outbound);
    assert_eq!(candidates.score_of(C), Some(400_000));
    let swapped = vec![(B, 400_000), (A, 800_000)];
    let candidates = CandidateSet::seeded(&swapped).expand(&store, Direction::Outbound);
    assert_eq!(candidates.score_of(C), Some(200_000));
    // Ranked: the neighbour sorts below or with its parents.
    let result = respond(&store, &seeds, &None, Some(Direction::Outbound), None);
    assert_eq!(ids(&result), vec![A, B, C]);
}

#[test]
fn a_later_seed_overwrites_the_score_of_an_earlier_one() {
    let seeds = vec![(A, 900_000), (B, 500_000), (A, 100_000)];
    let candidates = CandidateSet::seeded(&seeds);
    assert_eq!(candidates.ids(), vec![A, B]);
    assert_eq!(candidates.score_of(A), Some(100_000));
    assert_eq!(candidates.score_of(B), Some(500_000));
    assert_eq!(candidates.score_of(C), None);
}

#[test]
fn results_are_ranked_by_descending_score() {
    let mut store = StorageManager::new();
    let mut index = SimpleVectorIndex::new();
    let vectors: [(u128, [i32; 2]); 4] =
        [(A, [0, 1_000_000]), (B, [1_000_000, 0]), (C, [1_000_000, 1_000_000]), (D, [-1, 0])];
    for (id, v) in vectors {
        let m = semantic(id, v.to_vec());
        store.save_memory(&m);
        index.add(m.id, &m.embedding).unwrap();
    }
    let engine = QueryEngine::new(&store, &index);
    let result = engine.execute(with_embedding(vec![1_000_000, 0], Some(4))).unwrap();
    assert_eq!(ids(&result), vec![B, C, A, D]);
    let result = engine.execute(with_embedding(vec![1_000_000, 0], Some(2))).unwrap();
    assert_eq!(ids(&result), vec![B, C]);
}

#[test]
fn empty_store_and_index_answer_with_nothing() {
    let store = StorageManager::new();
    let index = SimpleVectorIndex::new();
    let engine = QueryEngine::new(&store, &index);
    assert!(engine.execute(query()).unwrap().is_empty());
    assert!(engine.execute(with_embedding(vec![1, 2], None)).unwrap().is_empty());
}

/// An index that answers every search with the same hits, cut to `k`.
struct FixedAnswers {
    hits: Vec<(u128, i64)>,
}

impl VectorIndex for FixedAnswers {
    fn add(&mut self, _id: u128, _vector: &[i32]) -> Result<(), IndexError> {
        Err(IndexError::Overflow)
    }

    fn search(&self, _vector: &[i32], k: usize) -> Result<Vec<(u128, i64)>, IndexError> {
        Ok(self.hits.iter().take(k).copied().collect())
    }
}

#[test]
fn the_engine_works_over_any_vector_index() {
    let (store, _) = two_alike();
    let index = FixedAnswers { hits: vec![(B, 900_000), (A, 100_000), (D, 50_000)] };
    let engine = QueryEngine::new(&store, &index);
    let result = engine.execute(with_embedding(vec![], Some(3))).unwrap();
    assert_eq!(ids(&result), vec![B, A]);
    let result = engine.execute(with_embedding(vec![], Some(1))).unwrap();
    assert_eq!(ids(&result), vec![B]);
    let mut q = with_embedding(vec![], Some(3));
    q.traverse = traverse("inbound");
    // A is reached from B, but it is a seed already and keeps its score.
    assert_eq!(ids(&engine.execute(q).unwrap()), vec![B, A]);
}

#[test]
fn no_memory_is_returned_twice() {
    let (mut store, mut index) = two_alike();
    // A is indexed a second time, and is reached from B as well.
    index.add(A, &[0, 1_000_000, 0]).unwrap();
    store.add_edge(B, A, "back".to_string(), 1);
    store.add_edge(A, B, "again".to_string(), 1);
    let engine = QueryEngine::new(&store, &index);
    let mut q = with_embedding(vec![1_000_000, 0, 0], Some(10));
    q.traverse = traverse("both");
    // A was seeded twice; its later hit (score 0) decides its score.
    assert_eq!(ids(&engine.execute(q).unwrap()), vec![B, A]);
}
