use memory_system_v2::clock::Moment;
use memory_system_v2::common::{Entry, Importance, Layer, RecallResult};
use memory_system_v2::legacy;
use memory_system_v2::migrate::{FileOutcome, MigrateReport, Migrator};
use memory_system_v2::notes::slugify;
use memory_system_v2::openclaw::OpenClawBridge;

/// The point in time so many milliseconds after the start of 1970.
fn at(millis: i64) -> Moment {
    Moment::of_millis(millis).unwrap()
}

const MEMORY_MD: &str = "# Title\nintro line\n\n## First Section\n- **bold item**\n- item\n\
                         ### sub\nplain\n## Empty\n\n## Second: A b C d E f\n  - - nested\n";

#[test]
fn sections_of_memory_md_become_entries() {
    let entries = Migrator::parse_file(MEMORY_MD, "MEMORY.md");
    let shown: Vec<(&str, &str)> =
        entries.iter().map(|e| (e.key.as_str(), e.value.as_str())).collect();
    assert_eq!(
        shown,
        vec![
            ("memory:longterm:", "intro line"),
            ("memory:longterm:first-section", "bold item**\nitem\nplain"),
            ("memory:longterm:second:-a-b-c-d", "nested"),
        ]
    );
    for e in &entries {
        assert_eq!(e.importance, Importance::High);
        assert_eq!(e.tags, vec!["memory", "longterm"]);
        assert_eq!(e.source, "MEMORY.md");
        assert_eq!(e.layer, Layer::Private);
        assert_eq!(e.id.len(), 36);
    }
    let same = OpenClawBridge::parse_memory_md(MEMORY_MD);
    assert_eq!(same.len(), 3);
    assert_eq!(same[1].value, entries[1].value);
    assert!(OpenClawBridge::parse_memory_md("").is_empty());
}

#[test]
fn long_lines_of_a_log_become_entries() {
    let log = "# heading long enough\n\n  short  \nexactly ten\n1234567890\n中文中文\n";
    let entries = Migrator::parse_file(log, "memory/2026-03-23.md");
    let values: Vec<&str> = entries.iter().map(|e| e.value.as_str()).collect();
    assert_eq!(values, vec!["exactly ten", "中文中文"]);
    assert_eq!(entries[0].key, "memory:daily:2026-03-23");
    assert_eq!(entries[0].source, "memory/2026-03-23.md");
    assert_eq!(entries[0].importance, Importance::Normal);
    assert_eq!(entries[0].tags, vec!["memory", "daily"]);

    let bridge = OpenClawBridge::parse_daily_log(log, "a.mdb.md.md");
    assert_eq!(bridge[0].key, "memory:daily:a.mdb");
    let migrated = Migrator::parse_daily_log(log, "x/a.mdb.md.md");
    assert_eq!(migrated[0].key, "memory:daily:ab");
}

#[test]
fn slugs_have_up_to_five_words() {
    assert_eq!(slugify("  One two\tTHREE four five six"), "one-two-three-four-five");
    assert_eq!(slugify(""), "");
    for text in ["  One two\tTHREE four five six", "a", " \n", "X-y Z"] {
        let slug = slugify(text);
        assert_eq!(slugify(&slug), slug);
        assert!(!slug.contains(char::is_whitespace));
    }
}

#[test]
fn old_files_are_markdown_files() {
    let names: Vec<String> = ["a.md", "b.txt", ".md", "c.MD"].iter().map(|s| s.to_string()).collect();
    assert_eq!(Migrator::scan_old_files(true, &names), vec!["MEMORY.md", "memory/a.md"]);
    assert_eq!(Migrator::scan_old_files(false, &vec![]), Vec::<String>::new());
    assert_eq!(Migrator::new("/w").workspace_root(), "/w");
}

#[test]
fn report_counts_and_lists_errors() {
    let mut report = MigrateReport::new(2);
    report.extracted(5);
    report.imported();
    assert!(report.may_delete());
    assert_eq!(
        report.text(),
        "=== 迁移报告 ===\n旧文件数量: 2\n提取条目: 5\n成功导入: 1\n"
    );
    report.write_failed("a", "full");
    report.parse_failed("b", "gone");
    report.delete_failed("\"c\"", "busy");
    assert!(!report.may_delete());
    assert!(report.text().ends_with("错误:\n  - a: full\n  - parse b: gone\n  - delete \"c\": busy\n"));
}

#[test]
fn workspace_notes_are_loaded_in_order() {
    let logs = vec![
        ("d1.md".to_string(), "a line of the first day".to_string()),
        ("d2.md".to_string(), "short".to_string()),
        ("d3.md".to_string(), "a line of the third day".to_string()),
    ];
    let entries = OpenClawBridge::load_workspace(&Some("## S\ntext".to_string()), &logs);
    let keys: Vec<&str> = entries.iter().map(|e| e.key.as_str()).collect();
    assert_eq!(keys, vec!["memory:longterm:s", "memory:daily:d1", "memory:daily:d3"]);
    assert_eq!(OpenClawBridge::load_workspace(&None, &vec![]).len(), 0);
    assert_eq!(OpenClawBridge::new("/ws").workspace(), "/ws");
}

fn dated(key: &str, day: i64, layer: Layer) -> Entry {
    let mut e = Entry::with_text(key, "text");
    e.created_at = at(day * 86_400_000 + 5);
    e.layer = layer;
    e
}

#[test]
fn entries_are_grouped_by_layer_and_date() {
    let entries = vec![
        dated("a", 0, Layer::Private),
        dated("b", 1, Layer::Private),
        dated("c", 0, Layer::Public),
        dated("d", 0, Layer::Private),
    ];
    let mut groups = OpenClawBridge::group_by_date(&entries, Layer::Private);
    groups.sort_by(|x, y| x.date.cmp(&y.date));
    assert_eq!(groups.len(), 2);
    assert_eq!(groups[0].date, "1970-01-01");
    let keys: Vec<&str> = groups[0].entries.iter().map(|e| e.key.as_str()).collect();
    assert_eq!(keys, vec!["a", "d"]);
    assert_eq!(groups[1].date, "1970-01-02");
    assert_eq!(OpenClawBridge::group_by_date(&entries, Layer::Public).len(), 1);
}

#[test]
fn daily_file_shows_its_entries() {
    let mut e = dated("public:k", 0, Layer::Public);
    e.id = "0123456789".into();
    e.source = "agent".into();
    e.importance = Importance::High;
    assert!(OpenClawBridge::has_short_id(&e.id));
    assert!(!OpenClawBridge::has_short_id("1234567"));
    assert!(!OpenClawBridge::has_short_id("1234567é"));
    assert_eq!(
        OpenClawBridge::daily_file("1970-01-01", &vec![e]),
        "# 记忆 - 1970-01-01\n\n共 1 条记忆\n\n## 01234567\n**Key:** `public:k`\n\
         **来源:** agent | **重要性:** High | 🟢 公共\n\ntext\n\n"
    );
}

#[test]
fn daily_files_are_kept_for_thirty_days() {
    let day: i64 = 86_400_000;
    let names: Vec<String> = ["1970-01-01.md", "1970-01-02.md", "x.md", "1970-01-01.txt"]
        .iter()
        .map(|s| s.to_string())
        .collect();
    assert_eq!(OpenClawBridge::outdated_files(&names, at(30 * day + 1)), vec!["1970-01-01.md"]);
    let just_after = Moment::new(30 * 86_400, 1).unwrap();
    assert_eq!(OpenClawBridge::outdated_files(&names, just_after), vec!["1970-01-01.md"]);
    assert!(OpenClawBridge::outdated_files(&names, at(30 * day)).is_empty());
}

#[test]
fn agent_texts_get_a_key_of_their_own() {
    let e = OpenClawBridge::remember_text(
        "text",
        Importance::Low,
        vec!["t".into()],
        "boss",
        Layer::Public,
    );
    assert!(e.key.starts_with("public:agent:boss:"));
    assert_eq!(e.key.len(), "public:agent:boss:".len() + 8);
    assert!(!e.id.starts_with(&e.key[18..]));
    assert_eq!(e.source, "boss");
    assert_eq!(e.tags, vec!["t"]);
}

#[test]
fn keys_of_agents_end_in_what_was_drawn() {
    let entry = |fresh: &str| {
        OpenClawBridge::agent_entry(
            fresh,
            "id".into(),
            "text",
            Importance::High,
            vec!["t".into()],
            "boss",
            Layer::Private,
            at(7),
        )
    };
    let one = entry("550e8400-e29b-41d4-a716-446655440000");
    assert_eq!(one.key, "private:agent:boss:550e8400");
    assert_eq!((one.id.as_str(), one.value.as_str(), one.source.as_str()), ("id", "text", "boss"));
    assert_eq!((one.created_at, one.last_accessed, one.expires_at), (at(7), at(7), None));
    assert_ne!(one.key, entry("650e8400-e29b-41d4-a716-446655440000").key);
    assert_eq!(one.key, entry("550e8400-ffff-41d4-a716-446655440000").key);
}

#[test]
fn what_was_not_imported_could_not_be_written() {
    let mut report = MigrateReport::new(3);
    report.file("a", &FileOutcome::Read(vec![None, None]));
    assert!(report.may_delete());
    report.file("b", &FileOutcome::Read(vec![Some("full".into()), None, Some("busy".into())]));
    report.file("c", &FileOutcome::Unreadable("gone".into()));
    assert_eq!((report.entries_extracted, report.entries_imported), (5, 3));
    assert_eq!(report.errors, vec!["b: full", "b: busy", "parse c: gone"]);
    assert!(!report.may_delete());
    report.file("d", &FileOutcome::Read(vec![None]));
    assert!(!report.may_delete());
}

#[test]
fn results_are_kept_by_the_prefix_of_their_key() {
    let results: Vec<RecallResult> = ["private:a", "public:b", "publicity", "c"]
        .iter()
        .map(|k| RecallResult::new(Entry::with_text(k, "v"), 1, "L0"))
        .collect();
    let public = OpenClawBridge::recall(&results, Some(Layer::Public));
    assert_eq!(public.len(), 1);
    assert_eq!(public[0].entry.key, "public:b");
    assert_eq!(OpenClawBridge::recall(&results, None).len(), 4);
    let req = OpenClawBridge::request("q", Some(Layer::Private), true);
    assert_eq!(req.limit(), 10);
    assert!(req.semantic);
}

#[test]
fn records_of_the_first_version_become_rows() {
    assert_eq!(legacy::Importance::from_str("CRITICAL").as_i32(), 4);
    assert_eq!(legacy::Importance::from_str("high").as_i32(), 3);
    assert_eq!(legacy::Importance::from_str("normal").as_i32(), 2);
    assert_eq!(legacy::Importance::from_str("?").as_i32(), 1);
    assert_eq!(legacy::Importance::from(9).as_i32(), 9);
    assert_eq!(legacy::Importance::from_number(None).as_i32(), 2);
    assert_eq!(legacy::Importance::from_number(Some(-1)).as_i32(), -1);
    assert_eq!(legacy::Importance::from_number(Some(4_294_967_299)).as_i32(), 3);
    assert_eq!(legacy::Layer::from_str("Public").as_str(), "public");
    assert_eq!(legacy::Layer::from_str("").as_str(), "private");

    let mut entry = legacy::Entry {
        id: "i".into(),
        key: "k".into(),
        value: "v".into(),
        importance: legacy::Importance(3),
        tags: vec![],
        source: Some("s".into()),
        layer: legacy::Layer("public"),
        created_at: at(5),
        last_accessed: at(6),
        expires_at: Some(at(7)),
    };
    let mut migration = legacy::Migration::new();
    migration.count(legacy::RecordOutcome::Written);
    migration.count(legacy::RecordOutcome::Unreadable);
    assert!(migration.succeeded());
    let row = entry.row();
    assert_eq!((row.seq, row.last_accessed, row.created_at), (0, 6, 5));
    assert_eq!((row.expires_at, row.source.as_str()), (Some(7), "s"));
    assert_eq!((row.importance, row.layer.as_str(), row.value.as_str()), (3, "public", "v"));
    entry.source = None;
    entry.expires_at = None;
    let row = entry.row();
    assert_eq!((row.expires_at, row.source.as_str()), (None, "v1-migration"));
    migration.count(legacy::RecordOutcome::WriteFailed);
    migration.count(legacy::RecordOutcome::NotFetched);
    assert_eq!((migration.total, migration.skipped, migration.errors), (1, 1, 2));
    assert!(!migration.succeeded());
}
