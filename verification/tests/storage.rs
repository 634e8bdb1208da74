use memory_graph::models::{Edge, InboundEdge, Memory, MemoryType, Timestamp};
use memory_graph::storage::StorageManager;

fn memory(id: u128, content: &str) -> Memory {
    Memory::with_identity(
        id,
        Timestamp { secs: 1_700_000_000, nanos: 0 },
        content.to_string(),
        vec![1_000_000, 0, 0],
        MemoryType::Semantic { confidence: 1_000_000, source: "test".to_string() },
    )
}

#[test]
fn save_then_get_round_trips() {
    let mut store = StorageManager::new();
    let mut m = memory(42, "Coffee beans are best stored in airtight containers");
    m.metadata.insert("source".to_string(), serde_json::Value::from("handbook"));
    m.access_count = 3;
    store.save_memory(&m);
    let got = store.get_memory(42).expect("the saved memory is there");
    assert_eq!(got.id, 42);
    assert_eq!(got.content, m.content);
    assert_eq!(got.embedding, m.embedding);
    assert_eq!(got.metadata, m.metadata);
    assert_eq!(got.created_at, m.created_at);
    assert_eq!(got.last_accessed_at, m.last_accessed_at);
    assert_eq!(got.access_count, 3);
    assert_eq!(got.importance, m.importance);
    assert_eq!(got.decay_rate, m.decay_rate);
    assert_eq!(got.memory_type.tag(), "Semantic");
}

#[test]
fn get_of_an_absent_id_is_none() {
    let mut store = StorageManager::new();
    assert!(store.get_memory(1).is_none());
    store.save_memory(&memory(2, "two"));
    assert!(store.get_memory(1).is_none());
    assert!(store.peek_memory(1).is_none());
    assert!(store.peek_memory(2).is_some());
}

#[test]
fn saving_again_overwrites_in_place() {
    let mut store = StorageManager::new();
    store.save_memory(&memory(5, "first"));
    store.save_memory(&memory(5, "second"));
    assert_eq!(store.get_memory(5).unwrap().content, "second");
    assert_eq!(store.list_memories().len(), 1);
}

#[test]
fn list_memories_walks_ids_in_ascending_order() {
    let mut store = StorageManager::new();
    assert!(store.list_memories().is_empty());
    for id in [30u128, 10, 20, 40, 10] {
        store.save_memory(&memory(id, "m"));
    }
    let ids: Vec<u128> = store.list_memories().iter().map(|m| m.id).collect();
    assert_eq!(ids, vec![10, 20, 30, 40]);
}

#[test]
fn many_memories_stay_findable() {
    let mut store = StorageManager::new();
    for i in 0..200u128 {
        let id = (i * 7919) % 1000;
        store.save_memory(&memory(id, &format!("m{}", id)));
    }
    for i in 0..200u128 {
        let id = (i * 7919) % 1000;
        assert_eq!(store.get_memory(id).unwrap().content, format!("m{}", id));
    }
    let ids: Vec<u128> = store.list_memories().iter().map(|m| m.id).collect();
    let mut sorted = ids.clone();
    sorted.sort();
    sorted.dedup();
    assert_eq!(ids, sorted);
}

#[test]
fn add_edge_writes_both_directions() {
    let mut store = StorageManager::new();
    store.add_edge(1, 2, "relates_to".to_string(), 800_000);
    let out = store.get_outbound_edges(1);
    let inn = store.get_inbound_edges(2);
    assert_eq!(out.len(), 1);
    assert_eq!(inn.len(), 1);
    assert_eq!(out[0].target_id, 2);
    assert_eq!(inn[0].source_id, 1);
    assert_eq!(out[0].relation_type, "relates_to");
    assert_eq!(inn[0].relation_type, "relates_to");
    assert_eq!(out[0].weight, 800_000);
    assert_eq!(inn[0].weight, 800_000);
    assert_eq!(out[0].created_at, inn[0].created_at);
    assert!(out[0].created_at.secs > 1_600_000_000);
    // Nothing appears in the opposite tables.
    assert!(store.get_outbound_edges(2).is_empty());
    assert!(store.get_inbound_edges(1).is_empty());
}

#[test]
fn add_edge_at_stamps_the_given_instant() {
    let mut store = StorageManager::new();
    let at = Timestamp { secs: 12, nanos: 34 };
    store.add_edge_at(1, 2, "x".to_string(), -5, at);
    assert_eq!(store.get_outbound_edges(1)[0].created_at, at);
    assert_eq!(store.get_inbound_edges(2)[0].created_at, at);
    assert_eq!(store.get_outbound_edges(1)[0].weight, -5);
}

#[test]
fn edges_are_appended_never_merged() {
    let mut store = StorageManager::new();
    let at = Timestamp { secs: 1, nanos: 0 };
    store.add_edge_at(1, 2, "x".to_string(), 1, at);
    store.add_edge_at(1, 3, "y".to_string(), 2, at);
    store.add_edge_at(1, 2, "x".to_string(), 1, at);
    let out = store.get_outbound_edges(1);
    let targets: Vec<u128> = out.iter().map(|e| e.target_id).collect();
    assert_eq!(targets, vec![2, 3, 2]);
    let inn = store.get_inbound_edges(2);
    assert_eq!(inn.len(), 2);
    assert_eq!(store.get_inbound_edges(3).len(), 1);
}

#[test]
fn unknown_nodes_have_empty_edge_lists() {
    let store = StorageManager::new();
    assert!(store.get_outbound_edges(99).is_empty());
    assert!(store.get_inbound_edges(99).is_empty());
}

#[test]
fn a_self_loop_is_listed_in_both_directions() {
    let mut store = StorageManager::new();
    store.add_edge(7, 7, "self".to_string(), 0);
    assert_eq!(store.get_outbound_edges(7)[0].target_id, 7);
    assert_eq!(store.get_inbound_edges(7)[0].source_id, 7);
}

#[test]
fn edges_do_not_touch_memories() {
    let mut store = StorageManager::new();
    store.save_memory(&memory(1, "one"));
    store.add_edge(1, 2, "x".to_string(), 1);
    assert_eq!(store.list_memories().len(), 1);
    assert!(store.get_memory(2).is_none());
    assert!(store.get_memory(1).unwrap().edges.is_empty());
}

#[test]
fn restored_lists_replace_what_was_listed() {
    let at = Timestamp { secs: 5, nanos: 6 };
    let mut store = StorageManager::new();
    store.add_edge_at(1, 2, "old".to_string(), 1, at);
    store.restore_outbound_edges(
        1,
        vec![
            Edge { target_id: 8, relation_type: "a".to_string(), weight: 10, created_at: at },
            Edge { target_id: 9, relation_type: "b".to_string(), weight: 20, created_at: at },
        ],
    );
    store.restore_inbound_edges(
        9,
        vec![InboundEdge { source_id: 1, relation_type: "b".to_string(), weight: 20, created_at: at }],
    );
    let targets: Vec<u128> = store.get_outbound_edges(1).iter().map(|e| e.target_id).collect();
    assert_eq!(targets, vec![8, 9]);
    assert_eq!(store.get_inbound_edges(9).len(), 1);
    assert_eq!(store.get_inbound_edges(9)[0].source_id, 1);
    // The incoming list of 2 is untouched.
    assert_eq!(store.get_inbound_edges(2).len(), 1);
    store.holds_valid_view();
}

#[test]
fn every_edge_is_listed_as_often_under_its_source_as_under_its_target() {
    let mut store = StorageManager::new();
    let at = Timestamp { secs: 1, nanos: 0 };
    for (source, target) in [(1u128, 2u128), (1, 3), (2, 3), (1, 2), (3, 3)] {
        store.add_edge_at(source, target, "x".to_string(), 5, at);
    }
    for source in 1..=3u128 {
        for target in 1..=3u128 {
            let out =
                store.get_outbound_edges(source).iter().filter(|e| e.target_id == target).count();
            let inn =
                store.get_inbound_edges(target).iter().filter(|e| e.source_id == source).count();
            assert_eq!(out, inn);
        }
    }
    assert_eq!(store.get_outbound_edges(1).iter().filter(|e| e.target_id == 2).count(), 2);
}
