use memory_system_v2::clock::{day_start, is_representable, Moment};
use memory_system_v2::common::{Entry, Importance, Layer, MemoryStats, RecallRequest};
use memory_system_v2::config::{Config, ConfigVars};
use memory_system_v2::errors::MemoryError;
use memory_system_v2::sort::{ordered, sort_names, Rank};
use memory_system_v2::text::{
    byte_prefix, chars_of, copy_of, decimal_padded, lines, number, parse_i64, parse_unsigned,
    remove_copies, space, split, string_of, trim, words,
};

fn text(s: &str) -> Vec<char> {
    s.chars().collect()
}

fn strings(v: Vec<Vec<char>>) -> Vec<String> {
    v.iter().map(|s| s.iter().collect()).collect()
}

#[test]
fn white_space_is_that_of_unicode() {
    for c in '\0'..=char::MAX {
        assert_eq!(space(c), c.is_whitespace(), "{:?}", c);
    }
}

#[test]
fn text_functions_agree_with_those_of_strings() {
    for s in [
        "", " ", "a", " a b ", "\u{3000}x\u{2003}", "a\r\nb\n\r\nc\r", "\n\n", "a\n", "x,,y", ",",
        "a.mdb.md", ".md.md", "ünï cödé",
    ] {
        let t = text(s);
        assert_eq!(string_of(trim(&t)), s.trim());
        assert_eq!(strings(lines(&t)), s.lines().collect::<Vec<_>>());
        assert_eq!(strings(words(&t)), s.split_whitespace().collect::<Vec<_>>());
        assert_eq!(strings(split(&t, ',')), s.split(',').collect::<Vec<_>>());
        assert_eq!(string_of(&remove_copies(&t, &text(".md"))), s.replace(".md", ""));
        assert_eq!(chars_of(s), t);
        assert_eq!(copy_of(&t), t);
        for n in 0..=s.len() + 1 {
            assert_eq!(byte_prefix(&t, n).as_deref(), s.get(..n));
        }
    }
}

#[test]
fn numbers_are_read_and_written_in_decimal() {
    for n in [0u64, 9, 10, 42, 1_000_000, u64::MAX] {
        assert_eq!(number(n), n.to_string());
        assert_eq!(parse_unsigned(&text(&n.to_string()), u64::MAX), Some(n));
        assert_eq!(string_of(&decimal_padded(n, 6)), format!("{:06}", n));
    }
    for s in ["", "+", "-", "+5", "++5", "5 ", "٣", "007", "18446744073709551616", "-1", "1e3"] {
        assert_eq!(parse_unsigned(&text(s), u64::MAX), s.parse::<u64>().ok(), "{}", s);
        assert_eq!(parse_i64(&text(s)), s.parse::<i64>().ok(), "{}", s);
    }
    for n in [i64::MIN, -1, 0, i64::MAX] {
        assert_eq!(parse_i64(&text(&n.to_string())), Some(n));
    }
    assert_eq!(parse_i64(&text("-9223372036854775809")), None);
    assert_eq!(parse_i64(&text("9223372036854775808")), None);
    assert_eq!(parse_i64(&text("-+5")), None);
}

#[test]
fn sorting_is_stable() {
    let ranks: Vec<Rank> = [(1, 0), (3, 1), (3, 2), (1, 0), (2, 9)]
        .iter()
        .map(|&(score, recency)| Rank { score, recency })
        .collect();
    assert_eq!(ordered(&ranks), vec![2, 1, 4, 0, 3]);
    let mut names: Vec<String> =
        ["b", "a", "é", "ab", "", "a", "Z"].iter().map(|s| s.to_string()).collect();
    let sorted = sort_names(&names);
    names.sort();
    assert_eq!(sorted, names);
}

#[test]
fn importance_has_levels_and_names() {
    let all = [Importance::Low, Importance::Normal, Importance::High, Importance::Critical];
    for (i, importance) in all.iter().enumerate() {
        assert_eq!(importance.level(), i as i32 + 1);
        assert_eq!(Importance::from(importance.level()), *importance);
        assert_eq!(Importance::from(importance.name()), *importance);
        assert_eq!(Importance::from(importance.title()), *importance);
        assert_eq!(importance.title(), format!("{:?}", importance));
    }
    assert_eq!(Importance::from("HIGH"), Importance::High);
    assert_eq!(Importance::from("urgent"), Importance::Normal);
    assert_eq!(Importance::from(0), Importance::Normal);
    assert_eq!(Importance::from(5), Importance::Normal);
    assert_eq!(Importance::default(), Importance::Normal);
    assert!(Importance::Low < Importance::Critical);
}

#[test]
fn layers_have_prefixes() {
    assert_eq!(Layer::Private.prefix(), "private");
    assert_eq!(Layer::Public.prefix(), "public");
    assert_eq!(Layer::from("PuBlic"), Layer::Public);
    assert_eq!(Layer::from("shared"), Layer::Private);
    assert_eq!(Layer::default(), Layer::Private);
}

#[test]
fn new_entries_have_an_identifier_and_the_time() {
    let before = Moment::now();
    let a = Entry::new(
        "k".into(),
        "v".into(),
        Importance::Low,
        vec!["t".into()],
        "s".into(),
        Layer::Public,
    );
    let b = Entry::with_text("k", "v");
    let after = Moment::now();
    assert!(!a.created_at.before(&before) && !after.before(&a.created_at));
    let clock = chrono::Utc::now();
    assert!((0..=60).contains(&(clock.timestamp() - after.secs())));
    assert!(after.nanos() < 1_000_000_000);
    assert_eq!(a.created_at, a.last_accessed);
    assert_eq!(a.expires_at, None);
    assert_ne!(a.id, b.id);
    assert_eq!(a.id.len(), 36);
    assert_eq!(a.id.as_bytes()[14], b'4');
    assert!(a.id.chars().all(|c| c == '-' || c.is_ascii_hexdigit()));
    assert_eq!(b.source, "memory-system");
    assert_eq!(b.importance, Importance::Normal);
    assert_eq!(b.layer, Layer::Private);
    assert!(b.tags.is_empty());
    let c = a.clone();
    assert_eq!((c.id, c.key, c.tags, c.layer), (a.id, a.key, a.tags, Layer::Public));
}

#[test]
fn requests_ask_for_ten_results_by_default() {
    let mut req = RecallRequest {
        query: "q".into(),
        keys: None,
        agent_id: None,
        tags: None,
        limit: None,
        layer: None,
        semantic: false,
    };
    assert_eq!(req.limit(), 10);
    req.limit = Some(3);
    assert_eq!(req.limit(), 3);
    let stats = MemoryStats::default();
    assert_eq!(stats.l0_entries + stats.l3_archived_files, 0);
    assert!(stats.layer_health.is_empty());
}

#[test]
fn configuration_has_defaults() {
    let c = Config::default();
    assert_eq!(c.l0_capacity, 10_000);
    assert_eq!(c.l1_path, "/tmp/memory_v2_l1");
    assert_eq!(c.l1_max_entries, 50_000);
    assert_eq!(c.l1_ttl_secs, 604_800);
    assert_eq!(c.l1_gc_interval_secs, 3600);
    assert_eq!(c.l2_max_entries, 100_000);
    assert_eq!(c.l2_pending_batch, 500);
    assert_eq!(c.l2_sync_interval_secs, 300);
    assert_eq!(c.l2_embed_batch_size, 50);
    assert_eq!(c.l2_vector_persist_path, "/tmp/memory_v2_l2_vectors.json");
    assert_eq!(c.l3_archive_dir, "memory-archive");
    assert_eq!(c.l3_archive_after_days, 30);
    assert_eq!(c.l3_gc_interval_secs, 86400);
    assert_eq!(c.api_key, None);
    assert_eq!(c.listen, "127.0.0.1:7891");
    assert_eq!(c.gemini_key, None);
    assert_eq!(c.workspace_path, ".");
}

#[test]
fn configuration_comes_from_variables() {
    let mut vars = ConfigVars::unset();
    vars.l0_max_entries = Some("7".into());
    vars.l1_max_age_secs = Some("-5".into());
    vars.l1_gc_interval_secs = Some("soon".into());
    vars.api_key = Some("".into());
    vars.listen = Some("0.0.0.0:1".into());
    let c = Config::from_vars(&vars);
    assert_eq!(c.l0_capacity, 7);
    assert_eq!(c.l1_ttl_secs, -5);
    assert_eq!(c.l1_gc_interval_secs, 3600);
    assert_eq!(c.api_key.as_deref(), Some(""));
    assert_eq!(c.listen, "0.0.0.0:1");
}

#[test]
fn errors_have_messages_and_statuses() {
    let s = || "x".to_string();
    let cases = vec![
        (MemoryError::L1WriteFailed(s()), "L1 write failed: x", 500),
        (MemoryError::L1NotFound(s()), "L1 entry not found: x", 404),
        (MemoryError::L2WriteFailed(s()), "L2 write failed: x", 500),
        (MemoryError::L2EmbedFailed(s()), "L2 embedding failed: x", 500),
        (MemoryError::L2InvalidVector(s()), "L2 invalid vector (NaN/Inf): x", 500),
        (MemoryError::L2Rebuilding, "L2 is rebuilding, temporarily unavailable", 503),
        (MemoryError::L3ArchiveFailed(s()), "L3 archive failed: x", 500),
        (MemoryError::L3ImportFailed(s()), "L3 import failed: x", 500),
        (MemoryError::ApiKeyMissing, "API key missing", 401),
        (MemoryError::ApiKeyInvalid, "API key invalid", 401),
        (MemoryError::InvalidRequest(s()), "invalid request: x", 400),
        (
            MemoryError::EntryTooLarge { key: s(), size: 12, max: 10 },
            "entry too large: 12 bytes (max 10): x",
            400,
        ),
        (MemoryError::InvalidKey(s()), "invalid key: x", 400),
        (MemoryError::Unauthorized(s()), "unauthorized: x", 401),
        (MemoryError::RateLimited(s()), "rate limited: x", 429),
        (MemoryError::ServiceUnavailable(s()), "service unavailable: x", 503),
        (MemoryError::Internal(s()), "internal error: x", 500),
    ];
    for (error, message, status) in cases {
        assert_eq!(error.message(), message);
        assert_eq!(error.status(), status);
    }
}

#[test]
fn points_in_time_are_those_of_the_calendar() {
    let at = Moment::new(-1, 999_999_999).unwrap();
    assert_eq!((at.secs(), at.nanos(), at.millis()), (-1, 999_999_999, -1));
    let next = Moment::new(0, 0).unwrap();
    assert!(at.before(&next) && !next.before(&at) && !at.before(&at));
    assert_eq!(Moment::of_millis(-1).unwrap(), Moment::new(-1, 999_000_000).unwrap());
    assert_eq!(Moment::of_millis(1_500).unwrap(), Moment::new(1, 500_000_000).unwrap());
    assert!(Moment::new(-8_334_601_228_800, 0).is_some());
    assert!(Moment::new(-8_334_601_228_801, 999_999_999).is_none());
    assert!(Moment::new(8_210_266_876_799, 999_999_999).is_some());
    assert!(Moment::new(8_210_266_876_800, 0).is_none());
    assert!(Moment::new(59, 1_999_999_999).is_some());
    assert!(Moment::new(-1, 1_000_000_000).is_some());
    assert!(Moment::new(58, 1_000_000_000).is_none());
    assert!(Moment::new(59, 2_000_000_000).is_none());
    assert_eq!(Moment::new(59, 1_250_000_000).unwrap().millis(), 60_250);
    assert!(is_representable(8_210_266_876_799_999) && !is_representable(8_210_266_876_800_000));
    assert!(Moment::of_millis(8_210_266_876_800_000).is_none());
}

#[test]
fn points_in_time_are_written_and_read() {
    let at = Moment::new(86_400, 1_000).unwrap();
    assert_eq!(at.to_rfc3339(), "1970-01-02T00:00:00.000001+00:00");
    assert_eq!(at.to_date(), "1970-01-02");
    assert_eq!(Moment::from_rfc3339("1970-01-02T00:00:00.000001+00:00"), Some(at));
    let east = Moment::from_rfc3339("1970-01-02T08:00:00+08:00").unwrap();
    assert_eq!((east.secs(), east.nanos()), (86_400, 0));
    let leap = Moment::from_rfc3339("2016-12-31T23:59:60Z").unwrap();
    assert_eq!(leap.nanos(), 1_000_000_000);
    assert!(Moment::from_rfc3339("tomorrow").is_none());
    assert_eq!(day_start("1970-01-03"), Some(172_800));
    assert_eq!(day_start("x"), None);
}
