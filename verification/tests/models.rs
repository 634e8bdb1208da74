use memory_graph::models::{
    Edge, Memory, MemoryType, Timestamp, DEFAULT_DECAY_RATE, DEFAULT_IMPORTANCE, UNIT,
};

fn semantic(source: &str) -> MemoryType {
    MemoryType::Semantic { confidence: 950_000, source: source.to_string() }
}

#[test]
fn new_memory_has_documented_defaults() {
    let m = Memory::new(
        "I love drinking coffee in the morning".to_string(),
        vec![100_000, 200_000, 300_000],
        semantic("Barista Handbook"),
    );
    assert_eq!(m.content, "I love drinking coffee in the morning");
    assert_eq!(m.embedding, vec![100_000, 200_000, 300_000]);
    assert!(m.metadata.is_empty());
    assert!(m.edges.is_empty());
    assert_eq!(m.created_at, m.last_accessed_at);
    assert_eq!(m.access_count, 0);
    assert_eq!(m.importance, DEFAULT_IMPORTANCE);
    assert_eq!(m.decay_rate, DEFAULT_DECAY_RATE);
    assert_eq!(m.memory_type.tag(), "Semantic");
}

#[test]
fn defaults_are_one_and_a_tenth() {
    assert_eq!(UNIT, 1_000_000);
    assert_eq!(DEFAULT_IMPORTANCE, UNIT);
    assert_eq!(DEFAULT_DECAY_RATE * 10, UNIT);
}

#[test]
fn new_memory_gets_a_version_seven_id() {
    let m = Memory::new("a".to_string(), vec![], semantic("s"));
    let id = uuid::Uuid::from_u128(m.id);
    assert_eq!(id.get_version_num(), 7);
    assert_eq!((m.id >> 76) & 0xf, 7);
    assert_eq!((m.id >> 62) & 0x3, 2);
}

#[test]
fn new_memories_get_different_ids_in_time_order() {
    let first = Memory::new("a".to_string(), vec![], semantic("s"));
    let second = Memory::new("b".to_string(), vec![], semantic("s"));
    assert_ne!(first.id, second.id);
    assert!(first.id < second.id);
}

#[test]
fn new_memory_is_created_now() {
    let m = Memory::new("a".to_string(), vec![], semantic("s"));
    // After 2020-09-13 and with a sub-second part that chrono can hold.
    assert!(m.created_at.secs > 1_600_000_000);
    assert!(m.created_at.nanos < 2_000_000_000);
}

#[test]
fn with_identity_takes_id_and_instant_as_given() {
    let at = Timestamp { secs: 1_700_000_000, nanos: 42 };
    let m = Memory::with_identity(
        7,
        at,
        "c".to_string(),
        vec![1, 2],
        MemoryType::Emotional { valence: -500_000, arousal: 250_000 },
    );
    assert_eq!(m.id, 7);
    assert_eq!(m.created_at, at);
    assert_eq!(m.last_accessed_at, at);
    assert_eq!(m.memory_type.tag(), "Emotional");
}

#[test]
fn every_variant_has_its_tag() {
    let episodic = MemoryType::Episodic {
        event_id: None,
        participants: vec!["Mark".to_string()],
        location: Some("Kitchen".to_string()),
    };
    let procedural = MemoryType::Procedural { success_rate: 500_000, last_executed: None };
    let emotional = MemoryType::Emotional { valence: 0, arousal: 0 };
    assert_eq!(episodic.tag(), "Episodic");
    assert_eq!(semantic("s").tag(), "Semantic");
    assert_eq!(procedural.tag(), "Procedural");
    assert_eq!(emotional.tag(), "Emotional");
}

#[test]
fn clone_is_a_deep_copy() {
    let at = Timestamp { secs: 1_700_000_000, nanos: 0 };
    let mut m = Memory::with_identity(
        9,
        at,
        "payload".to_string(),
        vec![5, -5],
        MemoryType::Episodic {
            event_id: Some(3),
            participants: vec!["a".to_string(), "b".to_string()],
            location: None,
        },
    );
    m.metadata.insert("user".to_string(), serde_json::Value::from("mark"));
    m.edges.push(Edge {
        target_id: 10,
        relation_type: "relates_to".to_string(),
        weight: 800_000,
        created_at: at,
    });
    let copy = m.clone();
    assert_eq!(copy.id, 9);
    assert_eq!(copy.content, "payload");
    assert_eq!(copy.embedding, vec![5, -5]);
    assert_eq!(copy.metadata, m.metadata);
    assert_eq!(copy.edges.len(), 1);
    assert_eq!(copy.edges[0].target_id, 10);
    assert_eq!(copy.edges[0].relation_type, "relates_to");
    assert_eq!(copy.edges[0].weight, 800_000);
    match copy.memory_type {
        MemoryType::Episodic { event_id, participants, location } => {
            assert_eq!(event_id, Some(3));
            assert_eq!(participants, vec!["a".to_string(), "b".to_string()]);
            assert_eq!(location, None);
        }
        _ => panic!("the copy changed the variant"),
    }
}
