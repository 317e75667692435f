use memory_system_v2::api::{
    check_api_key, cli_tags, deletable, found, health, metrics, preview, recall_request,
    remember_entry, remember_entry_until, requester, required_field, required_param, verify_ownership, visible_to,
    ApiFailure, RecallParams, RememberBody,
};
use memory_system_v2::clock::Moment;
use memory_system_v2::common::{Entry, Importance, L1Event, Layer, RecallRequest, RecallResult};
use memory_system_v2::config::Config;
use memory_system_v2::errors::MemoryError;
use memory_system_v2::l1::L1;
use memory_system_v2::system::{merge_results, MemorySystem};

/// The point in time so many milliseconds after the start of 1970.
fn at(millis: i64) -> Moment {
    Moment::of_millis(millis).unwrap()
}

fn new_system() -> MemorySystem {
    MemorySystem::new(&Config::default(), 0, vec![], vec![], at(0))
}

fn request(query: &str, limit: usize) -> RecallRequest {
    RecallRequest {
        query: query.into(),
        keys: None,
        agent_id: None,
        tags: None,
        limit: Some(limit),
        layer: None,
        semantic: false,
    }
}

fn result(id: &str, score: u64, from: &str) -> RecallResult {
    let mut e = Entry::with_text("k", "v");
    e.id = id.into();
    RecallResult::new(e, score, from)
}

#[test]
fn remembered_entries_are_read_back() {
    let mut system = new_system();
    let mut entry = Entry::with_text("private:k", "some text");
    entry.id = String::new();
    entry.created_at = at(1);
    let write = system.remember(entry);
    assert_eq!(write.row.key, "private:k");
    assert_eq!(write.row.id.len(), 36);
    assert_eq!(write.row.seq, 1);
    assert!(write.row.created_at > 1);
    assert_eq!(write.row.last_accessed, write.row.created_at);
    let held = system.get("private:k", at(0)).unwrap();
    assert_eq!(held.value, "some text");
    assert_eq!(held.id, write.row.id);
    assert_eq!(L1::get(&write.row).value, "some text");
    system.l2.apply(write.event);
    assert_eq!(system.l2.len(), 1);

    match system.delete("private:k") {
        L1Event::Delete { key, seq } => {
            assert_eq!((key.as_str(), seq), ("private:k", 2));
            system.l2.apply(L1Event::Delete { key, seq });
        }
        L1Event::Upsert { .. } => panic!("not a deletion"),
    }
    assert!(system.get("private:k", at(0)).is_none());
    assert_eq!(system.l2.len(), 0);
}

#[test]
fn given_identifiers_are_kept() {
    let mut system = new_system();
    let mut entry = Entry::with_text("k", "v");
    entry.id = "mine".into();
    let write = system.remember_at(entry, "fresh".into(), at(77));
    assert_eq!(write.row.id, "mine");
    assert_eq!((write.row.created_at, write.row.last_accessed), (77, 77));
}

#[test]
fn a_row_is_read_where_working_memory_has_nothing() {
    let mut system = new_system();
    let mut entry = Entry::with_text("k", "new");
    entry.expires_at = Some(at(5));
    system.remember(entry);
    let row = || {
        let entry = Entry::with_text("k", "old");
        Some(L1::new(0).write("k", &entry, at(1)).row)
    };
    assert!(system.l0.holds("k", at(5)) && !system.l0.holds("x", at(5)));
    let reading = system.read("k", row(), at(5));
    assert_eq!(reading.entry.unwrap().value, "new");
    assert_eq!(reading.accessed, None);

    assert!(!system.l0.holds("k", at(6)));
    let reading = system.read("k", row(), at(6));
    assert_eq!(reading.entry.unwrap().value, "old");
    assert_eq!(reading.accessed, Some(6));
    assert!(system.l0.is_empty());
    let reading = system.read("k", None, at(0));
    assert!(reading.entry.is_none() && reading.accessed.is_none());
}

#[test]
fn layers_are_merged_by_identifier() {
    let merged = merge_results(
        &vec![result("a", 5, "L0"), result("b", 1, "L0"), result("a", 3, "L0")],
        &vec![result("b", 9, "L1"), result("c", 4, "L1"), result("c", 8, "L1")],
        &vec![result("d", 2, "L2:BM25"), result("c", 9, "L2:BM25")],
        &request("", 10),
    );
    let shown: Vec<(&str, u64, &str)> = merged
        .iter()
        .map(|r| (r.entry.id.as_str(), r.score, r.from_layer.as_str()))
        .collect();
    assert_eq!(
        shown,
        vec![("c", 4, "L1"), ("a", 3, "L0"), ("d", 2, "L2:BM25"), ("b", 1, "L0")]
    );
    let two = merge_results(&merged, &vec![], &vec![], &request("", 2));
    assert_eq!(two.len(), 2);
    assert!(merge_results(&merged, &vec![], &vec![], &request("", 0)).is_empty());
}

#[test]
fn recall_asks_all_layers() {
    let mut system = new_system();
    let write = system.remember(Entry::with_text("a", "red apple"));
    let entries = vec![L1::get(&write.row), {
        let mut e = Entry::with_text("old", "an apple");
        e.id = "old-id".into();
        e
    }];
    system.l2.apply(write.event);
    let results = system.recall(
        &request("apple", 5),
        &entries,
        &vec![("a".to_string(), 3_000_000_000_000)],
        &None,
        at(0),
    );
    let shown: Vec<(&str, &str)> =
        results.iter().map(|r| (r.entry.key.as_str(), r.from_layer.as_str())).collect();
    assert_eq!(shown, vec![("a", "L0"), ("old", "L1")]);
}

#[test]
fn statistics_name_the_layers_with_issues() {
    let mut system = new_system();
    system.remember(Entry::with_text("a", "b"));
    let names = vec!["2026-01-01.md".to_string(), "x".to_string()];
    let stats = system.stats(7, None, &names, true);
    assert_eq!((stats.l0_entries, stats.l1_entries, stats.l3_archived_files), (1, 7, 1));
    assert_eq!(health(&stats), (200, "OK".to_string()));
    let stats = system.stats(7, Some("sqlite error: x".into()), &names, false);
    assert_eq!(
        health(&stats),
        (503, "DEGRADED: l1: sqlite error: x, l3: archive directory missing".to_string())
    );
    assert_eq!(
        metrics(&stats),
        "# HELP memory_entries_total Memory entries per layer\n\
         # TYPE memory_entries_total gauge\n\
         memory_l0_entries_total 1\n\
         memory_l1_entries_total 7\n\
         memory_l2_entries_total 0\n\
         memory_l2_vectors_cached_total 0\n\
         memory_l2_pending_vectors_total 0\n\
         memory_l3_archived_files_total 1\n"
    );
}

#[test]
fn recall_parameters_have_defaults() {
    let mut params = RecallParams {
        query: None,
        semantic: None,
        limit: None,
        agent_id: None,
        tags: None,
        layer: None,
    };
    let req = recall_request(&params);
    assert_eq!(req.query, "");
    assert_eq!(req.limit, Some(10));
    assert!(!req.semantic && req.tags.is_none() && req.layer.is_none());
    params.query = Some("q".into());
    params.semantic = Some("true".into());
    params.limit = Some("x".into());
    params.tags = Some("a,,b".into());
    params.layer = Some("PUBLIC".into());
    params.agent_id = Some("me".into());
    let req = recall_request(&params);
    assert_eq!(req.limit, Some(10));
    assert!(req.semantic);
    assert_eq!(req.tags.unwrap(), vec!["a", "", "b"]);
    assert_eq!(req.layer, Some(Layer::Public));
    assert_eq!(req.agent_id.as_deref(), Some("me"));
    params.semantic = Some("True".into());
    params.limit = Some("3".into());
    let req = recall_request(&params);
    assert!(!req.semantic);
    assert_eq!(req.limit, Some(3));
}

#[test]
fn a_key_and_a_value_are_required() {
    let mut body = RememberBody {
        sender: None,
        key: None,
        value: None,
        importance: Some("Critical".into()),
        layer: Some("public".into()),
        tags: Some(vec![Some("a".into()), None, Some("b".into())]),
        expires_at: None,
    };
    let failure = remember_entry(&body).unwrap_err();
    assert_eq!(failure.status(), 400);
    assert_eq!(failure.code(), "missing_field");
    assert_eq!(failure.detail(), ("message", "key is required".to_string()));
    body.key = Some("k".into());
    let failure = remember_entry(&body).unwrap_err();
    assert_eq!(failure.detail(), ("message", "value is required".to_string()));
    body.value = Some("v".into());
    let entry = remember_entry(&body).unwrap();
    assert_eq!(entry.importance, Importance::Critical);
    assert_eq!(entry.layer, Layer::Public);
    assert_eq!(entry.tags, vec!["a", "b"]);
    assert_eq!(entry.source, "http-api");
    body.importance = None;
    body.layer = None;
    body.tags = None;
    let entry = remember_entry(&body).unwrap();
    assert_eq!(entry.importance, Importance::Normal);
    assert_eq!(entry.layer, Layer::Private);
    assert!(entry.tags.is_empty());
}

#[test]
fn an_entry_expires_when_its_body_says() {
    let mut body = body("k", "v".into());
    assert_eq!(remember_entry(&body).unwrap().expires_at, None);
    body.expires_at = Some("1970-01-01T00:00:01.5Z".into());
    let entry = remember_entry(&body).unwrap();
    assert_eq!(entry.expires_at, Some(at(1_500)));
    assert_eq!(remember_entry_until(&body, Some(at(7))).unwrap().expires_at, Some(at(7)));
    body.expires_at = Some("soon".into());
    assert_eq!(remember_entry(&body).unwrap().expires_at, None);
    body.key = None;
    assert_eq!(remember_entry(&body).unwrap_err().code(), "missing_field");

    let mut system = new_system();
    let write = system.remember(entry);
    assert_eq!(write.row.expires_at, Some(1_500));
    assert!(system.get("k", at(1_500)).is_some());
    assert!(system.get("k", at(1_501)).is_none());
}

#[test]
fn failures_are_told_apart() {
    assert_eq!(required_field(&Some("k".into())).unwrap(), "k");
    assert_eq!(required_field(&None).unwrap_err().code(), "missing_field");
    let failure = required_param(&None).unwrap_err();
    assert_eq!(failure.code(), "missing_param");
    assert_eq!(failure.detail(), ("param", "key".to_string()));
    assert_eq!(required_param(&Some("k".into())).unwrap(), "k");
    let failure = found("k", None, "me").unwrap_err();
    assert_eq!((failure.status(), failure.code()), (404, "not_found"));
    assert_eq!(failure.detail(), ("key", "k".to_string()));
    let own = Entry::with_text("k", "v");
    assert_eq!(found("k", Some(own), "memory-system").unwrap().value, "v");
    let failure = ApiFailure::WriteFailed("full".into());
    assert_eq!((failure.status(), failure.code()), (500, "write_failed"));
    assert_eq!(failure.detail(), ("message", "full".to_string()));
    assert_eq!(ApiFailure::DeleteFailed("x".into()).code(), "delete_failed");
}

#[test]
fn command_line_texts() {
    assert_eq!(cli_tags(&Some("a,b".into())), vec!["a", "b"]);
    assert!(cli_tags(&None).is_empty());
    assert_eq!(preview("short").unwrap(), "short");
    assert_eq!(preview(&"x".repeat(150)).unwrap().len(), 100);
    assert_eq!(preview(&"é".repeat(60)).unwrap().chars().count(), 50);
    assert!(preview(&format!("x{}", "é".repeat(60))).is_none());
}

#[test]
fn a_match_is_found_in_a_large_memory() {
    let mut system = new_system();
    for i in 0..50 {
        system.remember(Entry::with_text(&format!("k{}", i), "pear"));
    }
    system.remember(Entry::with_text("a", "red apple"));
    let found = system.recall(&request("apple", 2), &vec![], &vec![], &None, at(0));
    assert_eq!(found.len(), 1);
    assert_eq!(found[0].entry.key, "a");
}

#[test]
fn a_match_is_lost_only_to_the_limit() {
    let mut system = new_system();
    let first = system.remember(Entry::with_text("a", "red apple")).row.id;
    let second = system.remember(Entry::with_text("b", "green apple tree")).row.id;
    system.remember(Entry::with_text("c", "pear"));
    let ids = |limit: usize| -> Vec<String> {
        let found = system.recall(&request("apple", limit), &vec![], &vec![], &None, at(0));
        found.into_iter().map(|r| r.entry.id).collect()
    };
    assert_eq!(ids(10), vec![second.clone(), first]);
    assert_eq!(ids(1), vec![second]);
    assert!(ids(0).is_empty());
}

#[test]
fn other_entries_stay_when_one_is_remembered() {
    let mut config = Config::default();
    config.l0_capacity = 2;
    let mut system = MemorySystem::new(&config, 5, vec![], vec![("v".into(), vec![0])], at(0));
    assert_eq!(system.l2.vector_count(), 1);
    assert_eq!(system.l2.pending_count(), 0);
    system.remember(Entry::with_text("a", "1"));
    system.remember(Entry::with_text("b", "2"));
    assert!(system.get("a", at(0)).is_some());
    let write = system.remember(Entry::with_text("c", "3"));
    assert_eq!(write.row.seq, 8);
    assert_eq!(system.get("a", at(0)).unwrap().value, "1");
    assert!(system.get("b", at(0)).is_none());
    assert_eq!(system.get("c", at(0)).unwrap().value, "3");
}

fn body(key: &str, value: String) -> RememberBody {
    RememberBody {
        sender: None,
        key: Some(key.into()),
        value: Some(value),
        importance: None,
        layer: None,
        tags: None,
        expires_at: None,
    }
}

#[test]
fn keys_and_values_have_limits() {
    assert!(remember_entry(&body(&"k".repeat(512), "v".into())).is_ok());
    assert!(remember_entry(&body("k", "v".repeat(1_048_576))).is_ok());
    for (key, value, code, message) in [
        ("k".repeat(513), "v".to_string(), "invalid_key", "invalid key: key 超过 512 字节"),
        ("é".repeat(257), "v".to_string(), "invalid_key", "invalid key: key 超过 512 字节"),
        ("a\0b".to_string(), "v".to_string(), "invalid_key", "invalid key: key 包含 null byte"),
        (
            "k".to_string(),
            "v".repeat(1_048_577),
            "entry_too_large",
            "entry too large: 1048577 bytes (max 1048576): k",
        ),
    ] {
        let failure = remember_entry(&body(&key, value)).unwrap_err();
        assert_eq!((failure.status(), failure.code()), (400, code));
        assert_eq!(failure.detail(), ("message", message.to_string()));
    }
}

#[test]
fn private_entries_are_for_their_agent() {
    assert_eq!(requester(&None), "http-api");
    assert_eq!(requester(&Some("me".into())), "me");
    let mut description = body("k", "v".into());
    description.sender = Some("me".into());
    let entry = remember_entry(&description).unwrap();
    assert_eq!(entry.source, "me");
    assert!(verify_ownership(&entry, "me").is_ok());
    assert!(matches!(
        verify_ownership(&entry, "you"),
        Err(MemoryError::Unauthorized(m)) if m == "Agent you cannot access private memory of me"
    ));
    let failure = found("k", Some(entry.clone()), "you").unwrap_err();
    assert_eq!((failure.status(), failure.code()), (401, "unauthorized"));
    assert!(found("k", Some(entry.clone()), "me").is_ok());
    assert!(deletable(&None, "you").is_ok());
    assert!(deletable(&Some(entry.clone()), "me").is_ok());
    assert_eq!(deletable(&Some(entry.clone()), "you").unwrap_err().status(), 401);

    let mut open = entry.clone();
    open.layer = Layer::Public;
    assert!(verify_ownership(&open, "you").is_ok());
    let results = vec![RecallResult::new(entry, 1, "L0"), RecallResult::new(open, 2, "L1")];
    assert_eq!(visible_to(&results, "me").len(), 2);
    let seen = visible_to(&results, "you");
    assert_eq!(seen.len(), 1);
    assert_eq!(seen[0].score, 2);
}

#[test]
fn a_configured_key_has_to_be_given() {
    let key = Some("secret".to_string());
    assert!(check_api_key(&None, &None).is_ok());
    assert!(check_api_key(&None, &key).is_ok());
    assert!(check_api_key(&key, &key).is_ok());
    assert_eq!(check_api_key(&key, &None).unwrap_err().status(), 401);
    let wrong = check_api_key(&key, &Some("other".into()));
    assert!(matches!(wrong, Err(MemoryError::ApiKeyInvalid)));
}

#[test]
fn all_layers_are_no_filter() {
    let params = |layer: &str| RecallParams {
        query: Some("x".into()),
        semantic: None,
        limit: None,
        agent_id: None,
        tags: None,
        layer: Some(layer.into()),
    };
    assert_eq!(recall_request(&params("all")).layer, None);
    assert_eq!(recall_request(&params("ALL")).layer, None);
    assert_eq!(recall_request(&params("private")).layer, Some(Layer::Private));
    assert_eq!(recall_request(&params("public")).layer, Some(Layer::Public));
}

#[test]
fn recall_filters_in_every_layer() {
    let mut system = new_system();
    let mut open = Entry::with_text("open", "apple");
    open.layer = Layer::Public;
    open.tags = vec!["t".into()];
    let write = system.remember(open);
    let rows = vec![L1::get(&write.row)];
    let id = write.row.id.clone();
    system.l2.apply(write.event);
    let raw = vec![("open".to_string(), 5)];
    let similar = Some(vec![("open".to_string(), 5)]);
    let mut req = request("apple", 5);
    assert_eq!(system.recall(&req, &rows, &raw, &similar, at(0))[0].entry.id, id);
    req.layer = Some(Layer::Private);
    assert!(system.recall(&req, &rows, &raw, &similar, at(0)).is_empty());
    req.layer = Some(Layer::Public);
    req.agent_id = Some("other".into());
    assert!(system.recall(&req, &rows, &raw, &similar, at(0)).is_empty());
    req.agent_id = Some("memory-system".into());
    req.tags = Some(vec!["t".into()]);
    assert_eq!(system.recall(&req, &rows, &raw, &similar, at(0)).len(), 1);
    system.delete("open");
    req.tags = Some(vec!["t".into(), "u".into()]);
    assert!(system.recall(&req, &rows, &raw, &similar, at(0)).is_empty());
}

#[test]
fn deleted_entries_are_not_recalled() {
    let mut system = new_system();
    let write = system.remember(Entry::with_text("k", "apple"));
    system.l2.apply(write.event);
    let event = system.delete("k");
    system.l2.apply(event);
    let raw = vec![("k".to_string(), 5)];
    let similar = Some(vec![("k".to_string(), 5)]);
    let found = system.recall(&request("apple", 5), &vec![], &raw, &similar, at(0));
    assert!(found.is_empty());
}

#[test]
fn every_layer_is_recalled_from() {
    let mut system = new_system();
    system.remember(Entry::with_text("l0", "apple"));
    system.l2.upsert("l2", Entry::with_text("l2", "apple"));
    let rows = vec![Entry::with_text("l1", "an apple")];
    let raw = vec![("l2".to_string(), 5_000_000_000_000)];
    let mut req = request("apple", 5);
    let order = |found: Vec<RecallResult>| -> Vec<String> {
        found.into_iter().map(|r| r.entry.key).collect()
    };
    let mut keys = order(system.recall(&req, &rows, &raw, &None, at(0)));
    keys.sort();
    assert_eq!(keys, vec!["l0", "l1", "l2"]);
    req.keys = Some(vec!["l1".into()]);
    assert_eq!(order(system.recall(&req, &rows, &raw, &None, at(0)))[0], "l1");
}
