use memory_system_v2::bm25::Bm25State;
use memory_system_v2::common::{Entry, Importance, L1Event, Layer, RecallRequest, SCORE_ONE};
use memory_system_v2::embed::{
    accept_embedding, begin_search, components, embed_url, end_search, take_reply, CircuitBreaker, EmbedReply,
};
use memory_system_v2::errors::MemoryError;
use memory_system_v2::fusion::{by_score, hybrid_fuse, normalise, top_matches};
use memory_system_v2::l2::{is_finite_vector, Followed, L2, MAX_EMBED_SIZE};

fn entry(key: &str, value: &str, layer: Layer) -> Entry {
    Entry::new(
        key.into(),
        value.into(),
        Importance::Normal,
        vec![],
        "agent".into(),
        layer,
    )
}

fn request(limit: usize) -> RecallRequest {
    RecallRequest {
        query: String::new(),
        keys: None,
        agent_id: None,
        tags: None,
        limit: Some(limit),
        layer: None,
        semantic: false,
    }
}

fn raw(list: &[(&str, f64)]) -> Vec<(String, i64)> {
    list.iter().map(|(k, s)| (k.to_string(), (s * 1e12).round() as i64)).collect()
}

fn asking(query: &str) -> RecallRequest {
    let mut req = request(10);
    req.query = query.into();
    req
}

#[test]
fn test_bm25_tokenize() {
    let tokens = Bm25State::tokenize("Hello world, this is a TEST!");
    assert!(tokens.contains(&"hello".to_string()));
    assert!(tokens.contains(&"world".to_string()));
    assert!(tokens.contains(&"this".to_string()));
}

#[test]
fn test_bm25_update_and_score() {
    let mut bm = Bm25State::new();
    bm.update("apple banana cherry");
    bm.update("banana date elderberry");
    bm.update("cherry fig grape");

    let query = Bm25State::tokenize("banana");
    let doc = Bm25State::tokenize("apple banana cherry");
    // The counts that the score is computed from.
    assert_eq!(query, vec!["banana".to_string()]);
    assert_eq!(doc.iter().filter(|t| **t == query[0]).count(), 1);
    assert_eq!(bm.doc_freq(&query[0]), 2);
    assert_eq!(bm.doc_count(), 3);
    assert_eq!(bm.total_len(), 9);
}

#[test]
fn test_hybrid_fuse() {
    let bm = raw(&[("k1", 1.0), ("k2", 0.5)]);
    let sem = raw(&[("k1", 0.8), ("k3", 0.9)]);
    let results = hybrid_fuse(&bm, &sem, 600_000_000_000);
    assert_eq!(results.iter().find(|(k, _)| k == "k1").unwrap().0, "k1");
    assert_eq!(
        results,
        vec![
            ("k1".to_string(), 920_000_000_000),
            ("k3".to_string(), 360_000_000_000),
            ("k2".to_string(), 300_000_000_000),
        ]
    );
}

#[test]
fn tokens_are_runs_of_at_least_two_bytes() {
    assert_eq!(
        Bm25State::tokenize("Hello world, this is a TEST!"),
        vec!["hello", "world", "this", "is", "test"]
    );
    assert_eq!(Bm25State::tokenize("a 中 x1 é"), vec!["中", "x1", "é"]);
    assert_eq!(Bm25State::tokenize("中文 搜索"), vec!["中文", "搜索"]);
    assert_eq!(Bm25State::tokenize("自动化"), vec!["自动化", "自动", "动化"]);
    assert_eq!(Bm25State::tokenize("v2版本号 привет"), vec!["v2版本号", "版本", "本号", "привет"]);
    assert_eq!(Bm25State::tokenize("日 かな 한국어"), vec!["日", "かな", "한국어", "한국", "국어"]);
    assert!(Bm25State::tokenize("").is_empty());
    assert!(Bm25State::tokenize("a b, c!").is_empty());
}

#[test]
fn counting_out_restores_the_counts() {
    let mut bm = Bm25State::new();
    bm.update("apple banana");
    bm.update("banana banana cherry");
    assert_eq!(bm.doc_count(), 2);
    assert_eq!(bm.total_len(), 5);
    assert_eq!(bm.doc_freq("banana"), 2);
    assert_eq!(bm.doc_freq("cherry"), 1);
    bm.remove("banana banana cherry");
    assert_eq!(bm.doc_count(), 1);
    assert_eq!(bm.total_len(), 2);
    assert_eq!(bm.doc_freq("banana"), 1);
    assert_eq!(bm.doc_freq("cherry"), 0);
    bm.remove("apple banana");
    bm.remove("never there");
    assert_eq!(bm.doc_count(), 0);
    assert_eq!(bm.total_len(), 0);
}

#[test]
fn candidates_hold_a_token_of_the_query() {
    let mut l2 = L2::new(
        vec![
            entry("a", "red apple apple", Layer::Private),
            entry("b", "green apple", Layer::Public),
            entry("c", "blue sky", Layer::Private),
        ],
        vec![],
        0,
    );
    assert_eq!(l2.len(), 3);
    assert_eq!(l2.doc_count(), 3);
    assert_eq!(l2.total_len(), 7);
    let mut found = l2.candidates(&asking("Apple red"));
    found.sort_by(|x, y| x.key.cmp(&y.key));
    assert_eq!(found.len(), 2);
    assert_eq!(found[0].key, "a");
    assert_eq!(found[0].doc_len, 3);
    assert_eq!(found[0].hits, 3);
    assert_eq!((found[0].terms[0].df, found[0].terms[0].tf), (2, 2));
    assert_eq!((found[0].terms[1].df, found[0].terms[1].tf), (1, 1));
    assert_eq!(found[1].key, "b");
    assert_eq!((found[1].terms[1].df, found[1].terms[1].tf), (1, 0));

    let mut req = asking("apple");
    req.layer = Some(Layer::Public);
    let public = l2.candidates(&req);
    assert_eq!(public.len(), 1);
    assert_eq!(public[0].key, "b");
    assert!(l2.candidates(&asking("ocean")).is_empty());
    assert!(l2.candidates(&asking("")).is_empty());

    l2.delete("a");
    assert!(l2.candidates(&asking("red")).is_empty());
    assert_eq!(l2.candidates(&asking("apple")).len(), 1);
}

#[test]
fn a_later_write_replaces_the_document() {
    let mut l2 = L2::empty();
    l2.apply(L1Event::Upsert {
        key: "k".into(),
        entry: entry("k", "old words", Layer::Private),
        seq: 1,
    });
    l2.apply(L1Event::Upsert {
        key: "k".into(),
        entry: entry("k", "new words", Layer::Private),
        seq: 2,
    });
    assert_eq!(l2.len(), 1);
    assert_eq!(l2.doc_count(), 1);
    assert_eq!(l2.total_len(), 2);
    assert!(l2.candidates(&asking("old")).is_empty());
    assert_eq!(l2.candidates(&asking("new")).len(), 1);
    assert_eq!(l2.candidates(&asking("words"))[0].hits, 1);
    assert_eq!(l2.pending_count(), 1);
    l2.apply(L1Event::Delete { key: "k".into(), seq: 3 });
    assert_eq!(l2.len(), 0);
    assert_eq!(l2.pending_count(), 0);
    assert_eq!(l2.total_len(), 0);
}

#[test]
fn vectors_are_asked_for_kept_and_dropped() {
    let mut l2 = L2::new(
        vec![entry("a", "one text", Layer::Private), entry("b", "two text", Layer::Private)],
        vec![
            ("a".to_string(), vec![1.0f32.to_bits()]),
            ("gone".to_string(), vec![f32::NAN.to_bits()]),
        ],
        0,
    );
    assert_eq!(l2.vector_count(), 1);
    assert_eq!(l2.keys_needing_vectors(50), vec!["b".to_string()]);
    assert!(l2.keys_needing_vectors(0).is_empty());
    assert_eq!(l2.text_to_embed("b").unwrap(), "two text");
    assert!(l2.text_to_embed("a").is_none());
    assert!(l2.text_to_embed("nothing").is_none());
    l2.store_vector("b", vec![2.0f32.to_bits(), (-0.5f32).to_bits()]);
    assert!(l2.keys_needing_vectors(50).is_empty());
    l2.upsert("a", entry("a", "changed", Layer::Private));
    assert_eq!(l2.pending_count(), 1);
    assert_eq!(l2.keys_needing_vectors(50), vec!["a".to_string()]);
    let mut all = l2.all_vectors();
    all.sort();
    assert_eq!(all[0], ("a".to_string(), vec![1.0f32.to_bits()]));
    assert_eq!(all[1].1.len(), 2);
    l2.delete("a");
    assert_eq!(l2.vector_count(), 1);
    assert!(l2.health_issue().is_none());
}

#[test]
fn a_part_of_a_chinese_text_is_found() {
    let l2 = L2::new(
        vec![
            entry("tc01:test", "测试记忆内容，用于验证写入接口。", Layer::Private),
            entry("tc:auto", "自动化测试记忆", Layer::Private),
            entry("other", "天气很好", Layer::Private),
        ],
        vec![],
        0,
    );
    let keys = |query: &str| -> Vec<String> {
        let mut keys: Vec<String> =
            l2.candidates(&asking(query)).into_iter().map(|c| c.key).collect();
        keys.sort();
        keys
    };
    assert_eq!(keys("测试记忆"), vec!["tc01:test", "tc:auto"]);
    assert_eq!(keys("自动化"), vec!["tc:auto"]);
    assert_eq!(keys("验证"), vec!["tc01:test"]);
    assert!(keys("很长").is_empty());
}

#[test]
fn a_text_that_grew_too_large_loses_its_vector() {
    let mut l2 = L2::new(
        vec![entry("a", "one", Layer::Private), entry("b", "two", Layer::Private)],
        vec![("a".to_string(), vec![0]), ("b".to_string(), vec![0])],
        4,
    );
    l2.upsert("a", entry("a", &"x".repeat(MAX_EMBED_SIZE), Layer::Private));
    assert_eq!(l2.vector_count(), 2);
    l2.apply(L1Event::Upsert {
        key: "a".into(),
        entry: entry("a", &"x".repeat(MAX_EMBED_SIZE + 1), Layer::Private),
        seq: 5,
    });
    assert_eq!(l2.all_vectors(), vec![("b".to_string(), vec![0])]);
    assert!(l2.keys_needing_vectors(10).is_empty());
}

#[test]
fn a_search_does_not_go_by_replaced_texts() {
    let mut l2 = L2::new(
        vec![entry("a", "one", Layer::Private), entry("b", "two", Layer::Private)],
        vec![("a".to_string(), vec![1]), ("b".to_string(), vec![2])],
        0,
    );
    assert_eq!(l2.current_vectors().len(), 2);
    l2.upsert("a", entry("a", "three", Layer::Private));
    assert_eq!(l2.vector_count(), 2);
    assert_eq!(l2.current_vectors(), vec![("b".to_string(), vec![2])]);

    // A vector comes too late where its text was replaced meanwhile.
    assert!(!l2.keep_vector("a", "one", vec![3]));
    assert!(!l2.keep_vector("gone", "one", vec![3]));
    assert_eq!(l2.pending_count(), 1);
    assert_eq!(l2.current_vectors().len(), 1);
    assert!(l2.keep_vector("a", "three", vec![4]));
    assert_eq!(l2.pending_count(), 0);
    let mut all = l2.current_vectors();
    all.sort();
    assert_eq!(all, vec![("a".to_string(), vec![4]), ("b".to_string(), vec![2])]);
}

#[test]
fn items_that_are_no_numbers_are_passed_over() {
    assert_eq!(components(None), None);
    assert_eq!(components(Some(vec![Some(3), None, Some(1)])), Some(vec![3, 1]));
    assert_eq!(components(Some(vec![None])), Some(vec![]));
}

#[test]
fn a_rebuilt_index_keeps_the_vectors_of_the_same_texts() {
    let mut l2 = L2::new(
        ["same", "changed", "pending", "gone"]
            .iter()
            .map(|k| entry(k, "text", Layer::Private))
            .collect(),
        ["same", "changed", "pending", "gone", "never"]
            .iter()
            .map(|k| (k.to_string(), vec![1]))
            .collect(),
        0,
    );
    l2.upsert("pending", entry("pending", "new text", Layer::Private));
    l2.store_vector("same", vec![2]);
    let mut rebuilt = l2.rebuilt(
        vec![
            entry("same", "text", Layer::Private),
            entry("changed", "other text", Layer::Private),
            entry("pending", "new text", Layer::Private),
            entry("added", "text", Layer::Private),
        ],
        9,
    );
    assert_eq!(rebuilt.len(), 4);
    assert_eq!(rebuilt.all_vectors(), vec![("same".to_string(), vec![2])]);
    assert_eq!(rebuilt.pending_count(), 0);
    assert_eq!(rebuilt.keys_needing_vectors(10).len(), 3);
    rebuilt.load_vectors(vec![("added".to_string(), vec![3])]);
    rebuilt.store_vector("changed", vec![4]);
    assert_eq!(rebuilt.apply(L1Event::Delete { key: "x".into(), seq: 9 }), Followed::Dropped);
    assert_eq!(rebuilt.apply(L1Event::Delete { key: "x".into(), seq: 10 }), Followed::InTurn);
}

#[test]
fn large_texts_are_not_embedded() {
    let mut l2 = L2::empty();
    l2.upsert("fits", entry("fits", &"x".repeat(MAX_EMBED_SIZE), Layer::Private));
    l2.upsert("large", entry("large", &"x".repeat(MAX_EMBED_SIZE + 1), Layer::Private));
    assert_eq!(l2.keys_needing_vectors(10), vec!["fits".to_string()]);
    assert!(l2.text_to_embed("large").is_none());
}

#[test]
fn results_are_ranked_by_share_of_the_best() {
    let l2 = L2::new(
        vec![
            entry("a", "x", Layer::Private),
            entry("b", "y", Layer::Private),
            entry("c", "z", Layer::Private),
        ],
        vec![],
        0,
    );
    let scores = raw(&[("a", 1.0), ("b", 4.0), ("c", -3.0), ("gone", 2.0)]);
    let results = l2.recall(&request(10), &scores, &None);
    let shown: Vec<(&str, u64, &str)> = results
        .iter()
        .map(|r| (r.entry.key.as_str(), r.score, r.from_layer.as_str()))
        .collect();
    assert_eq!(
        shown,
        vec![
            ("b", SCORE_ONE, "L2:BM25"),
            ("a", 250_000_000_000, "L2:BM25"),
            ("c", 0, "L2:BM25"),
        ]
    );
    assert_eq!(l2.recall(&request(1), &scores, &None).len(), 1);

    let similar = Some(raw(&[("c", 0.5), ("gone", 1.0)]));
    let results = l2.recall(&request(2), &scores, &similar);
    let shown: Vec<(&str, u64, &str)> = results
        .iter()
        .map(|r| (r.entry.key.as_str(), r.score, r.from_layer.as_str()))
        .collect();
    assert_eq!(
        shown,
        vec![("b", 600_000_000_000, "L2:Hybrid"), ("c", 200_000_000_000, "L2:Hybrid")]
    );
}

#[test]
fn small_scores_are_not_blown_up() {
    let shares = normalise(&vec![("a".to_string(), 500_000), ("b".to_string(), -7)]);
    assert_eq!(
        shares,
        vec![("a".to_string(), 500_000_000_000), ("b".to_string(), 0)]
    );
    assert!(normalise(&vec![]).is_empty());
}

#[test]
fn fusion_cuts_similarities_and_adds_up_repeated_keys() {
    let fused = hybrid_fuse(
        &vec![],
        &raw(&[("a", 7.0), ("b", -1.0), ("c", 0.25), ("c", 0.25)]),
        500_000_000_000,
    );
    assert_eq!(
        fused,
        vec![
            ("a".to_string(), 500_000_000_000),
            ("c".to_string(), 250_000_000_000),
            ("b".to_string(), 0),
        ]
    );
}

#[test]
fn equal_scores_keep_their_order() {
    let list = vec![
        ("a".to_string(), 1u64),
        ("b".to_string(), 2),
        ("c".to_string(), 1),
        ("d".to_string(), 2),
    ];
    let keys: Vec<String> = by_score(&list).into_iter().map(|(k, _)| k).collect();
    assert_eq!(keys, vec!["b", "d", "a", "c"]);
    let top = top_matches(&raw(&[("a", -0.5), ("b", 0.5), ("c", 0.5)]), 2);
    assert_eq!(top, raw(&[("b", 0.5), ("c", 0.5)]));
}

#[test]
fn embeddings_have_to_be_there_and_finite() {
    assert!(matches!(
        accept_embedding(None),
        Err(MemoryError::L2EmbedFailed(m)) if m == "invalid embedding response"
    ));
    for bad in [f32::NAN, f32::INFINITY, f32::NEG_INFINITY] {
        assert!(!is_finite_vector(&vec![0, bad.to_bits()]));
        assert!(matches!(
            accept_embedding(Some(vec![bad.to_bits()])),
            Err(MemoryError::L2InvalidVector(m)) if m == "non-finite value in embedding"
        ));
    }
    for good in [0.0f32, -1.5, f32::MAX, f32::MIN_POSITIVE] {
        assert!(is_finite_vector(&vec![good.to_bits()]));
    }
    assert_eq!(accept_embedding(Some(vec![7])).unwrap(), vec![7]);
    assert!(embed_url("KEY").ends_with("/gemini-embedding-001:embedContent?key=KEY"));
}

#[test]
fn breaker_opens_after_five_failures_for_a_minute() {
    let mut breaker = CircuitBreaker::new();
    for i in 0..4 {
        breaker.failed(i);
        assert!(breaker.allows(i));
    }
    breaker.failed(1000);
    assert!(!breaker.allows(1000));
    assert!(!breaker.allows(60_999));
    assert!(breaker.allows(61_000));
    breaker.failed(61_000);
    assert!(!breaker.allows(61_001));
    breaker.succeeded();
    assert!(breaker.allows(61_002));
    breaker.failed(61_003);
    assert!(breaker.allows(61_003));
}

#[test]
fn a_later_entry_takes_the_place_of_an_earlier_one() {
    let entries = vec![
        Entry::with_text("k", "apple"),
        Entry::with_text("other", "pear"),
        Entry::with_text("k", "plum tree"),
    ];
    let rebuilt = L2::new(entries, vec![], 0);
    assert_eq!((rebuilt.len(), rebuilt.doc_count(), rebuilt.total_len()), (2, 2, 3));
    assert!(rebuilt.candidates(&asking("apple")).is_empty());
    assert_eq!(rebuilt.candidates(&asking("plum")).len(), 1);
}

#[test]
fn changes_are_followed_once_and_in_order() {
    let upsert = |value: &str, seq: u64| L1Event::Upsert {
        key: "k".into(),
        entry: entry("k", value, Layer::Private),
        seq,
    };
    let mut l2 = L2::new(vec![entry("k", "first", Layer::Private)], vec![], 4);
    assert_eq!(l2.apply(upsert("older", 4)), Followed::Dropped);
    assert_eq!(l2.candidates(&asking("first")).len(), 1);
    assert_eq!(l2.apply(upsert("second", 5)), Followed::InTurn);
    assert_eq!(l2.apply(upsert("second", 5)), Followed::Dropped);
    assert_eq!(l2.pending_count(), 1);
    assert_eq!(l2.apply(L1Event::Delete { key: "k".into(), seq: 7 }), Followed::AfterGap);
    assert_eq!(l2.apply(upsert("late", 6)), Followed::Dropped);
    assert_eq!(l2.len(), 0);
}

#[test]
fn similar_entries_are_filtered_too() {
    let mut l2 = L2::empty();
    l2.upsert("a", entry("a", "x", Layer::Private));
    l2.upsert("b", entry("b", "y", Layer::Public));
    let mut req = request(10);
    req.layer = Some(Layer::Private);
    let similar = Some(raw(&[("b", 0.9), ("a", 0.5)]));
    let results = l2.recall(&req, &vec![], &similar);
    assert_eq!(results.len(), 1);
    assert_eq!(results[0].entry.key, "a");
    req.layer = None;
    req.agent_id = Some("nobody".into());
    assert!(l2.recall(&req, &raw(&[("a", 1.0)]), &None).is_empty());
}

#[test]
fn a_closed_service_is_not_asked() {
    let key = Some("KEY".to_string());
    let mut breaker = CircuitBreaker::new();
    assert!(begin_search(&None, &breaker, 0).is_none());
    assert_eq!(begin_search(&key, &breaker, 0).unwrap(), embed_url("KEY"));
    for at in 0..4 {
        let reply = EmbedReply::Unreachable("timeout".into());
        assert!(take_reply(&mut breaker, reply, at).is_none());
    }
    assert!(begin_search(&key, &breaker, 4).is_some());
    assert!(take_reply(&mut breaker, EmbedReply::Response(None), 4).is_none());
    assert!(begin_search(&key, &breaker, 60_003).is_none());
    assert!(begin_search(&key, &breaker, 60_004).is_some());
    let nan = EmbedReply::Response(Some(vec![f32::NAN.to_bits()]));
    assert!(take_reply(&mut breaker, nan, 60_004).is_none());
    assert!(begin_search(&key, &breaker, 120_003).is_none());
    let good = EmbedReply::Response(Some(vec![1.0f32.to_bits()]));
    assert_eq!(take_reply(&mut breaker, good, 120_004).unwrap(), vec![1.0f32.to_bits()]);
    assert!(begin_search(&key, &breaker, 120_005).is_some());
    let scores: Vec<(String, i64)> = (0..30).map(|i| (format!("k{}", i), i)).collect();
    assert!(end_search(&None, &scores).is_empty());
    let best = end_search(&Some(vec![0]), &scores);
    assert_eq!(best.len(), 20);
    assert_eq!(best[0], ("k29".to_string(), 29));
}
