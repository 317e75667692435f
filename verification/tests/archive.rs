use memory_system_v2::clock::Moment;
use memory_system_v2::common::{Entry, Importance, Layer};
use memory_system_v2::errors::MemoryError;
use memory_system_v2::l3::{
    archive_name, archived_keys, entry_to_markdown, old_enough, parse_block, select_old, DayFile, L3,
};

/// The point in time so many milliseconds after the start of 1970.
fn at(millis: i64) -> Moment {
    Moment::of_millis(millis).unwrap()
}

fn lines(text: &str) -> Vec<String> {
    text.lines().map(String::from).collect()
}

#[test]
fn test_parse_roundtrip() {
    let entry = Entry::new(
        "private:test:001".into(),
        "hello world".into(),
        Importance::High,
        vec!["test".into(), "foo".into()],
        "agent-x".into(),
        Layer::Private,
    );

    let md = entry_to_markdown(&entry);
    let parsed = L3::parse_entry(&md).expect("should parse");

    assert_eq!(parsed.key, entry.key);
    assert_eq!(parsed.value, entry.value);
    assert_eq!(parsed.importance, Importance::High);
    assert_eq!(parsed.tags, entry.tags);
    assert_eq!(parsed.source, entry.source);
}

#[test]
fn test_archive_and_import() {
    let entry = Entry::new(
        "private:test:arch".into(),
        "archived content".into(),
        Importance::Normal,
        vec![],
        "test".into(),
        Layer::Private,
    );
    let mut l3 = L3::new(entry.created_at);
    let step = l3.archive(&entry, entry.created_at).unwrap();
    let day = step.open.clone().unwrap();
    assert_eq!(archive_name(&day), l3.today_name());
    l3.opened(&day);
    assert_eq!(l3.day_file(), DayFile::Open);

    let archives = L3::list_archives(&vec![l3.today_name()]);
    assert!(!archives.is_empty());

    let parsed = L3::parse_entry(&step.block).expect("should parse");
    assert_eq!(parsed.value, "archived content");
    assert_eq!(L3::import_archive(&lines(&step.block)).len(), 1);

    l3.finalize_today();
    assert_eq!(l3.day_file(), DayFile::Closed);
}

#[test]
fn test_count_archives() {
    let names = vec!["2026-01-01.md".to_string(), "2026-01-02.md".to_string()];

    // A new archive creates no file beside those in its directory.
    let l3 = L3::new(Moment::now());
    assert_eq!(l3.day_file(), DayFile::Unopened);
    assert_eq!(L3::count_archives(&names), 2);
}

#[test]
fn block_has_the_documented_form() {
    let mut entry = Entry::new(
        "k".into(),
        "text".into(),
        Importance::Low,
        vec!["a".into(), "b".into()],
        "s".into(),
        Layer::Public,
    );
    entry.created_at = at(1_500);
    assert_eq!(
        entry_to_markdown(&entry),
        "## k\n**重要性**: Low\n**来源**: s\n**标签**: [a, b]\n\
         **创建时间**: 1970-01-01T00:00:01.500+00:00\n\ntext\n\n---\n"
    );
    entry.created_at = Moment::new(1, 500_000_001).unwrap();
    assert!(entry_to_markdown(&entry).contains("1970-01-01T00:00:01.500000001+00:00"));
    entry.created_at = Moment::new(59, 1_250_000_000).unwrap();
    assert!(entry_to_markdown(&entry).contains("1970-01-01T00:00:60.250+00:00"));
    entry.created_at = at(-8_334_601_228_800_000);
    assert!(entry_to_markdown(&entry).contains("-262143-01-01T00:00:00+00:00"));
    entry.created_at = at(8_210_266_876_799_999);
    assert!(entry_to_markdown(&entry).contains("+262142-12-31T23:59:59.999+00:00"));
}

#[test]
fn block_needs_a_key_and_a_text_apart() {
    assert!(parse_block("").is_none());
    assert!(parse_block("## key only").is_none());
    assert!(parse_block("no key\n\ntext").is_none());
    let block = parse_block("---\n## key  \n\n text\n\nmore \n---").unwrap();
    assert_eq!(block.key, "key");
    assert_eq!(block.value, "text\n\nmore");
    assert_eq!(block.importance, Importance::Normal);
    assert_eq!(block.source, "l3-archive");
    assert!(block.tags.is_empty());
}

#[test]
fn head_lines_are_read_in_any_case_and_order() {
    let block =
        parse_block("**标签**: [[x , y]]\n**重要性**: cRiTical\n**来源**:\n## k\n\nv").unwrap();
    assert_eq!(block.tags, vec!["x", "y"]);
    assert_eq!(block.importance, Importance::Critical);
    assert_eq!(block.source, "");
}

#[test]
fn no_tags_come_back_as_one_empty_tag() {
    let block = parse_block("## k\n**标签**: []\n\nv").unwrap();
    assert_eq!(block.tags, vec![""]);
}

#[test]
fn archive_of_several_entries_is_read_back() {
    let entries: Vec<Entry> = (0..3)
        .map(|i| {
            Entry::new(
                format!("private:k{}", i),
                format!("line one {}\n\n- - -\nline two", i),
                Importance::High,
                vec!["t".into()],
                "agent".into(),
                Layer::Private,
            )
        })
        .collect();
    let text = L3::archive_batch(&entries);
    let back = L3::import_archive(&lines(&text));
    assert_eq!(back.len(), 3);
    for i in 0..3 {
        assert_eq!(back[i].key, entries[i].key);
        assert_eq!(back[i].value, entries[i].value);
        assert_ne!(back[i].id, entries[i].id);
    }
}

#[test]
fn unfinished_and_unreadable_blocks_are_passed_over() {
    let text = "---\n---\nnonsense\n---\n## a\n\nx\n---\n## b\n\ny\n";
    let back = L3::import_archive(&lines(text));
    assert_eq!(back.len(), 1);
    assert_eq!(back[0].key, "a");
    assert_eq!(back[0].value, "x");
}

#[test]
fn archives_are_listed_by_date() {
    let names: Vec<String> =
        ["b.md", "a.md.md", "note.txt", "A.md", ".md"].iter().map(|s| s.to_string()).collect();
    assert_eq!(L3::list_archives(&names), vec!["", "A", "a", "b"]);
    assert_eq!(archive_name("2026-01-01"), "2026-01-01.md");
}

#[test]
fn a_new_day_opens_its_file() {
    let day: i64 = 86_400_000;
    let mut entry = Entry::with_text("k", "v");
    entry.created_at = at(0);
    let mut l3 = L3::new(at(0));
    assert_eq!(l3.today_name(), "1970-01-01.md");
    assert_eq!(l3.archive(&entry, at(day - 1)).unwrap().open.as_deref(), Some("1970-01-01"));
    l3.opened("1970-01-01");
    assert!(l3.archive(&entry, at(day - 1)).unwrap().open.is_none());
    let step = l3.archive(&entry, at(day)).unwrap();
    assert_eq!(step.open.as_deref(), Some("1970-01-02"));
    l3.opened("1970-01-02");
    assert!(l3.archive(&entry, at(day)).unwrap().open.is_none());
    l3.finalize_today();
    assert!(matches!(
        l3.archive(&entry, at(day)),
        Err(MemoryError::L3ArchiveFailed(m)) if m == "archive file closed"
    ));
    assert!(l3.archive(&entry, at(2 * day)).unwrap().open.is_some());
}

#[test]
fn entries_are_archived_after_whole_seconds() {
    let day: i64 = 86_400_000;
    let now = at(100 * day + 500);
    assert!(old_enough(at(70 * day - 1), now, 30));
    assert!(!old_enough(at(70 * day), now, 30));
    assert!(!old_enough(at(70 * day + 499), now, 30));
    assert!(old_enough(at(-8_334_601_228_800_000), now, 30));
    assert!(!old_enough(at(8_210_266_876_799_999), now, i64::MAX));
    let mut young = Entry::with_text("young", "v");
    young.created_at = at(99 * day);
    let mut old = Entry::with_text("old", "v");
    old.created_at = at(0);
    let picked = select_old(&vec![young, old], now, 30);
    assert_eq!(picked.len(), 1);
    assert_eq!(picked[0].key, "old");
}

#[test]
fn missing_directory_is_an_issue() {
    assert_eq!(L3::health_issue(false).as_deref(), Some("archive directory missing"));
    assert!(L3::health_issue(true).is_none());
}

#[test]
fn only_what_was_written_leaves_short_term_memory() {
    let old = vec![
        Entry::with_text("a", "1"),
        Entry::with_text("b", "2"),
        Entry::with_text("c", "3"),
    ];
    assert_eq!(archived_keys(&old, &vec![true, false, true]), vec!["a", "c"]);
    assert!(archived_keys(&old, &vec![false, false, false]).is_empty());
}
