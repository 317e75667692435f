use memory_system_v2::clock::Moment;
use memory_system_v2::common::{Entry, Importance, Layer, RecallRequest, SCORE_ONE};
use memory_system_v2::l0::{
    compute_relevance_score, L0Stats, WorkingMemory, DEFAULT_L0_MAX_ENTRIES,
};

/// The point in time so many milliseconds after the start of 1970.
fn at(millis: i64) -> Moment {
    Moment::of_millis(millis).unwrap()
}

fn dummy_entry(key: &str, value: &str) -> Entry {
    Entry::new(
        key.into(),
        value.into(),
        Importance::Normal,
        vec![],
        "test-agent".into(),
        Layer::Private,
    )
}

fn request(query: &str, limit: Option<usize>) -> RecallRequest {
    RecallRequest {
        query: query.into(),
        keys: None,
        agent_id: None,
        tags: None,
        limit,
        layer: None,
        semantic: false,
    }
}

fn as_float(score: u64) -> f32 {
    (score as f64 / SCORE_ONE as f64) as f32
}

fn words(list: &[&str]) -> Vec<String> {
    list.iter().map(|s| s.to_string()).collect()
}

#[test]
fn test_write_and_get() {
    let mut mem = WorkingMemory::with_capacity(100);
    let entry = dummy_entry("k1", "hello world");
    mem.write("k1".to_string(), entry);

    let retrieved = mem.get("k1", at(0));
    assert!(retrieved.is_some());
    assert_eq!(retrieved.unwrap().value, "hello world");
}

#[test]
fn test_get_nonexistent() {
    let mut mem = WorkingMemory::with_capacity(100);
    assert!(mem.get("nonexistent", at(0)).is_none());
}

#[test]
fn test_remove() {
    let mut mem = WorkingMemory::with_capacity(100);
    mem.write("k1".to_string(), dummy_entry("k1", "v1"));
    assert!(mem.remove("k1"));
    assert!(mem.get("k1", at(0)).is_none());
}

#[test]
fn test_remove_unknown() {
    let mut mem = WorkingMemory::with_capacity(100);
    assert!(!mem.remove("unknown"));
}

#[test]
fn test_lru_eviction() {
    let mut mem = WorkingMemory::with_capacity(3);
    for i in 0..3 {
        mem.write(
            format!("k{}", i),
            dummy_entry(&format!("k{}", i), &format!("v{}", i)),
        );
    }

    mem.get("k0", at(0));

    mem.write("k3".to_string(), dummy_entry("k3", "v3"));

    assert!(
        mem.get("k0", at(0)).is_some(),
        "k0 should still be present (was accessed)"
    );
    assert!(
        mem.get("k1", at(0)).is_none(),
        "k1 should be evicted (oldest before k0 bump)"
    );
    assert!(mem.get("k2", at(0)).is_some());
    assert!(mem.get("k3", at(0)).is_some());
}

#[test]
fn test_clear_session() {
    let mut mem = WorkingMemory::with_capacity(100);
    mem.write("session:abc:k1".to_string(), dummy_entry("session:abc:k1", "v1"));
    mem.write("session:abc:k2".to_string(), dummy_entry("session:abc:k2", "v2"));
    mem.write("global:k1".to_string(), dummy_entry("global:k1", "v3"));

    mem.clear_session(&vec!["session:abc:k1".into(), "session:abc:k2".into()]);

    assert!(mem.get("global:k1", at(0)).is_some());
    assert!(mem.get("session:abc:k1", at(0)).is_none());
    assert!(mem.get("session:abc:k2", at(0)).is_none());
}

#[test]
fn test_len_and_stats() {
    let mut mem = WorkingMemory::with_capacity(100);
    assert_eq!(mem.len(), 0);
    assert!(mem.is_empty());

    mem.write("k1".to_string(), dummy_entry("k1", "v1"));
    mem.write("k2".to_string(), dummy_entry("k2", "v2"));
    assert_eq!(mem.len(), 2);
    assert!(!mem.is_empty());

    let stats = mem.stats();
    assert_eq!(stats.entries, 2);
    assert_eq!(stats.capacity, 100);
}

#[test]
fn test_recall_exact_match() {
    let mut mem = WorkingMemory::with_capacity(100);
    mem.write("k1".to_string(), dummy_entry("k1", "the quick brown fox"));
    mem.write("k2".to_string(), dummy_entry("k2", "the lazy dog"));
    mem.write("k3".to_string(), dummy_entry("k3", "something else"));

    let results = mem.recall(&request("quick brown fox", Some(10)), at(0));

    assert_eq!(results.len(), 1);
    assert_eq!(results[0].entry.key, "k1");
    assert!((as_float(results[0].score) - 0.8).abs() < f32::EPSILON);
}

#[test]
fn test_recall_partial_match() {
    let mut mem = WorkingMemory::with_capacity(100);
    mem.write("k1".to_string(), dummy_entry("k1", "rust programming language"));
    mem.write("k2".to_string(), dummy_entry("k2", "python scripting"));
    mem.write("k3".to_string(), dummy_entry("k3", "go concurrent programming"));

    let results = mem.recall(&request("programming", Some(10)), at(0));

    assert_eq!(results.len(), 2);
    for r in &results {
        assert!(as_float(r.score) > 0.0);
    }
}

#[test]
fn test_recall_limit() {
    let mut mem = WorkingMemory::with_capacity(100);
    for i in 0..20 {
        mem.write(
            format!("k{}", i),
            dummy_entry(&format!("k{}", i), &format!("value {}", i)),
        );
    }

    let results = mem.recall(&request("value", Some(5)), at(0));

    assert_eq!(results.len(), 5);
}

#[test]
fn test_capacity_respects_minimum() {
    let mem = WorkingMemory::with_capacity(0);
    let stats = mem.stats();
    assert_eq!(stats.capacity, 1, "capacity should be at least 1");
}

#[test]
fn test_relevance_score_exact() {
    let tokens = vec!["hello".to_lowercase()];
    let score = compute_relevance_score("hello", &tokens);
    assert!((as_float(score) - 1.0).abs() < f32::EPSILON);
}

#[test]
fn test_relevance_score_all_tokens() {
    let tokens = words(&["quick", "brown"]);
    let score = compute_relevance_score("the quick brown fox", &tokens);
    assert!((as_float(score) - 0.8).abs() < f32::EPSILON);
}

#[test]
fn test_relevance_score_partial() {
    let tokens = words(&["quick", "red"]);
    let score = as_float(compute_relevance_score("the quick fox", &tokens));
    assert!(score > 0.0 && score < 0.8);
}

#[test]
fn test_relevance_score_none() {
    let tokens = words(&["zebra"]);
    let score = compute_relevance_score("the quick fox", &tokens);
    assert!((as_float(score) - 0.0).abs() < f32::EPSILON);
}

#[test]
fn test_l0_stats_display() {
    let stats = L0Stats {
        entries: 42,
        capacity: 100,
    };
    let s = stats.text();
    assert!(s.contains("42"));
    assert!(s.contains("100"));
    assert_eq!(s, "L0 { entries: 42/100 }");
}

#[test]
fn test_default_capacity_from_env_not_set() {
    let mem = WorkingMemory::new(&None);
    assert_eq!(mem.stats().capacity, DEFAULT_L0_MAX_ENTRIES);
}

#[test]
fn capacity_comes_from_the_variable() {
    assert_eq!(WorkingMemory::new(&Some("12".to_string())).stats().capacity, 12);
    assert_eq!(WorkingMemory::new(&Some("0".to_string())).stats().capacity, 1);
    assert_eq!(WorkingMemory::new(&Some("many".to_string())).stats().capacity, 10_000);
}

#[test]
fn partial_scores_are_exact() {
    let tokens = words(&["the", "red", "blue", "green"]);
    assert_eq!(compute_relevance_score("The fox", &tokens), 600_000_000_000);
    let tokens = words(&["fox", "red", "blue", "green"]);
    assert_eq!(compute_relevance_score("The fox", &tokens), 400_000_000_000);
    assert_eq!(compute_relevance_score("quick fox", &words(&["quick", "red"])), 600_000_000_000);
    assert_eq!(compute_relevance_score("The fox", &vec![]), 0);
}

#[test]
fn best_match_comes_first_and_the_last_used_of_equals() {
    let mut mem = WorkingMemory::with_capacity(100);
    mem.write("a".to_string(), dummy_entry("a", "red green"));
    mem.write("b".to_string(), dummy_entry("b", "red blue"));
    mem.write("c".to_string(), dummy_entry("c", "Red"));
    mem.get("a", at(0));
    let results = mem.recall(&request("RED", None), at(0));
    let keys: Vec<&str> = results.iter().map(|r| r.entry.key.as_str()).collect();
    assert_eq!(keys, vec!["c", "a", "b"]);
    assert_eq!(results[0].score, SCORE_ONE);
    assert_eq!(results[1].score, 800_000_000_000);
    assert_eq!(results[2].from_layer, "L0");
}

#[test]
fn overwriting_keeps_other_entries_of_a_full_memory() {
    let mut mem = WorkingMemory::with_capacity(2);
    mem.write("a".to_string(), dummy_entry("a", "1"));
    mem.write("b".to_string(), dummy_entry("b", "2"));
    mem.write("a".to_string(), dummy_entry("a", "3"));
    assert_eq!(mem.len(), 2);
    assert_eq!(mem.get("b", at(0)).unwrap().value, "2");
    assert_eq!(mem.get("a", at(0)).unwrap().value, "3");
}

#[test]
fn writing_again_counts_as_a_use() {
    let mut mem = WorkingMemory::with_capacity(2);
    mem.write("a".to_string(), dummy_entry("a", "1"));
    mem.write("b".to_string(), dummy_entry("b", "2"));
    mem.write("a".to_string(), dummy_entry("a", "3"));
    mem.write("c".to_string(), dummy_entry("c", "4"));
    assert!(mem.get("b", at(0)).is_none());
    assert!(mem.get("a", at(0)).is_some());
    assert!(mem.get("c", at(0)).is_some());
}

#[test]
fn expired_entries_are_not_found() {
    let mut mem = WorkingMemory::with_capacity(10);
    let mut entry = dummy_entry("k", "red");
    entry.expires_at = Some(at(5));
    mem.write("k".to_string(), entry);
    mem.write("stays".to_string(), dummy_entry("stays", "red"));
    assert!(mem.get("k", at(5)).is_some());
    assert_eq!(mem.recall(&request("red", None), at(5)).len(), 2);
    let later = mem.recall(&request("red", None), at(6));
    assert_eq!(later.len(), 1);
    assert_eq!(later[0].entry.key, "stays");
    assert_eq!(mem.len(), 2);
    assert!(mem.get("k", at(6)).is_none());
    assert_eq!(mem.len(), 1);
    assert!(mem.get("k", at(0)).is_none());
    assert!(mem.get("stays", at(8_210_266_876_799_999)).is_some());
}

#[test]
fn recall_gives_only_what_the_request_admits() {
    let mut mem = WorkingMemory::with_capacity(10);
    for (key, source, layer, tags) in [
        ("a", "x", Layer::Private, vec!["t", "u"]),
        ("b", "x", Layer::Public, vec!["t", "u"]),
        ("c", "y", Layer::Private, vec!["t", "u"]),
        ("d", "x", Layer::Private, vec!["t"]),
    ] {
        let mut entry = dummy_entry(key, "red");
        entry.source = source.into();
        entry.layer = layer;
        entry.tags = tags.into_iter().map(String::from).collect();
        mem.write(key.to_string(), entry);
    }
    let mut req = request("red", None);
    assert_eq!(mem.recall(&req, at(0)).len(), 4);
    req.layer = Some(Layer::Private);
    assert_eq!(mem.recall(&req, at(0)).len(), 3);
    req.agent_id = Some("x".into());
    assert_eq!(mem.recall(&req, at(0)).len(), 2);
    req.tags = Some(vec!["u".into(), "t".into()]);
    let found = mem.recall(&req, at(0));
    assert_eq!(found.len(), 1);
    assert_eq!(found[0].entry.key, "a");
    req.tags = Some(vec![]);
    assert_eq!(mem.recall(&req, at(0)).len(), 2);
}
