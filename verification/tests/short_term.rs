use memory_system_v2::clock::Moment;
use memory_system_v2::common::{Entry, Importance, L1Event, Layer};
use memory_system_v2::errors::MemoryError;
use memory_system_v2::l1::{publish, Row, KEY_SCORE, L1, VALUE_SCORE};

/// The point in time so many milliseconds after the start of 1970.
fn at(millis: i64) -> Moment {
    Moment::of_millis(millis).unwrap()
}

/// A table that keeps the last row of every key.
struct Table {
    l1: L1,
    rows: Vec<Row>,
}

impl Table {
    fn new() -> Self {
        Table { l1: L1::new(0), rows: Vec::new() }
    }

    fn write(&mut self, key: &str, entry: &Entry) {
        let write = self.l1.write(key, entry, entry.last_accessed);
        self.rows.retain(|r| r.key != write.row.key);
        self.rows.push(write.row);
    }

    fn delete(&mut self, key: &str) {
        match self.l1.delete(key) {
            L1Event::Delete { key, .. } => self.rows.retain(|r| r.key != key),
            L1Event::Upsert { .. } => panic!("not a deletion"),
        }
    }

    fn get(&self, key: &str) -> Option<Entry> {
        self.rows.iter().find(|r| r.key == key).map(|r| L1::get(r))
    }

    fn len(&self) -> usize {
        self.rows.len()
    }

    fn is_empty(&self) -> bool {
        self.rows.is_empty()
    }
}

fn entry(key: &str, value: &str, importance: Importance, source: &str) -> Entry {
    Entry::new(
        key.into(),
        value.into(),
        importance,
        vec![],
        source.into(),
        Layer::Private,
    )
}

#[test]
fn write_and_get() {
    let mut l1 = Table::new();
    let e = entry("private:test:001", "hello world", Importance::Normal, "test-agent");
    l1.write("private:test:001", &e);
    let retrieved = l1.get("private:test:001").unwrap();
    assert_eq!(retrieved.value, "hello world");
    assert_eq!(l1.len(), 1);
}

#[test]
fn delete() {
    let mut l1 = Table::new();
    let e = entry("private:test:del", "delete me", Importance::Low, "test");
    l1.write("private:test:del", &e);
    assert_eq!(l1.len(), 1);
    l1.delete("private:test:del");
    assert_eq!(l1.len(), 0);
}

#[test]
fn replace() {
    let mut l1 = Table::new();
    let e1 = entry("private:test:x", "v1", Importance::Low, "a");
    let e2 = entry("private:test:x", "v2", Importance::High, "b");
    l1.write("private:test:x", &e1);
    l1.write("private:test:x", &e2);
    assert_eq!(l1.len(), 1);
    assert_eq!(l1.get("private:test:x").unwrap().value, "v2");
}

#[test]
fn recall() {
    let mut l1 = Table::new();
    let e1 = entry("private:test:r1", "apple banana", Importance::Low, "a");
    let e2 = entry("private:test:r2", "car dog", Importance::Low, "a");
    l1.write("private:test:r1", &e1);
    l1.write("private:test:r2", &e2);
    let results = L1::recall(&L1::full_scan(&l1.rows), "apple");
    assert_eq!(results.len(), 1);
    assert_eq!(results[0].entry.value, "apple banana");
}

#[test]
fn len_and_empty() {
    let mut l1 = Table::new();
    assert!(l1.is_empty());
    let e = entry("k", "v", Importance::Low, "a");
    l1.write("k", &e);
    assert_eq!(l1.len(), 1);
}

#[test]
fn row_keeps_everything_but_tags() {
    let mut l1 = L1::new(41);
    let mut e = entry("k", "v", Importance::Low, "s");
    e.layer = Layer::Public;
    e.tags = vec!["t".to_string()];
    e.created_at = Moment::new(-1, 995_999_999).unwrap();
    e.expires_at = Some(at(77));
    let write = l1.write("other", &e, at(99));
    assert_eq!((write.row.created_at, write.row.last_accessed), (-5, 99));
    assert_eq!(write.row.expires_at, Some(77));
    assert_eq!(l1.seq(), 42);
    assert_eq!(write.row.seq, 42);
    assert_eq!(write.row.importance, 1);
    assert_eq!(write.row.layer, "public");
    assert!(L1::is_valid(&write.row));
    let back = L1::get(&write.row);
    assert_eq!(back.key, "other");
    assert_eq!(back.id, e.id);
    assert_eq!(back.importance, Importance::Low);
    assert_eq!(back.layer, Layer::Public);
    assert_eq!(back.created_at, at(-5));
    assert_eq!(back.last_accessed, at(99));
    assert_eq!(back.expires_at, Some(at(77)));
    assert!(back.tags.is_empty());
    match write.event {
        L1Event::Upsert { key, entry, seq } => {
            assert_eq!(key, "other");
            assert_eq!(entry.tags, vec!["t".to_string()]);
            assert_eq!(seq, 42);
        }
        L1Event::Delete { .. } => panic!("not a write"),
    }
}

#[test]
fn rows_beyond_the_calendar_are_not_valid() {
    assert!(L1::is_valid(&row("k", 1, 8_210_266_876_799_999, Some(-8_334_601_228_800_000))));
    assert!(!L1::is_valid(&row("k", 1, 8_210_266_876_800_000, None)));
    assert!(!L1::is_valid(&row("k", 1, 0, Some(-8_334_601_228_800_001))));
    let mut e = row("k", 1, 0, None);
    e.created_at = i64::MAX;
    assert!(!L1::is_valid(&e));
}

#[test]
fn key_match_scores_higher_than_text_match() {
    let entries = vec![
        entry("private:Apple", "x", Importance::Low, "a"),
        entry("k", "an APPLE", Importance::Low, "a"),
        entry("k", "pear", Importance::Low, "a"),
    ];
    let results = L1::recall(&entries, "aPPle");
    let scores: Vec<u64> = results.iter().map(|r| r.score).collect();
    assert_eq!(scores, vec![KEY_SCORE, VALUE_SCORE]);
    assert_eq!(results[1].from_layer, "L1");
    assert_eq!(L1::recall(&entries, "").len(), 3);
}

fn row(key: &str, importance: i32, last_accessed: i64, expires_at: Option<i64>) -> Row {
    Row {
        key: key.into(),
        id: "id".into(),
        value: "v".into(),
        importance,
        source: "s".into(),
        layer: "private".into(),
        created_at: 0,
        last_accessed,
        expires_at,
        seq: 1,
    }
}

#[test]
fn gc_drops_expired_and_stale_rows() {
    let rows = vec![
        row("expired", 4, 1_000_000, Some(999_999)),
        row("expires now", 2, 1_000_000, Some(1_000_000)),
        row("stale", 3, 399_999, None),
        row("just in time", 3, 400_000, None),
        row("critical", 4, 0, None),
    ];
    assert_eq!(
        L1::gc(&rows, at(1_000_000), 600),
        vec!["expired".to_string(), "stale".to_string()]
    );
    assert!(L1::gc(&rows, at(-8_334_601_228_800_000), i64::MAX).is_empty());
}

#[test]
fn a_change_is_told_only_once_it_is_stored() {
    let mut l1 = L1::new(8);
    let e = entry("k", "v", Importance::Low, "a");
    let write = l1.write("k", &e, at(5));
    assert!(matches!(
        publish(write.event, true),
        Some(L1Event::Upsert { seq: 9, .. })
    ));
    assert!(publish(l1.delete("k"), false).is_none());
    assert_eq!(l1.seq(), 10);
}

#[test]
fn one_write_changes_one_row() {
    let mut table = Table::new();
    table.write("a", &entry("a", "1", Importance::Low, "x"));
    table.write("b", &entry("b", "2", Importance::High, "y"));
    table.write("a", &entry("a", "3", Importance::Critical, "z"));
    assert_eq!(table.len(), 2);
    let a = table.get("a").unwrap();
    assert_eq!((a.value.as_str(), a.source.as_str()), ("3", "z"));
    assert_eq!(a.importance, Importance::Critical);
    assert_eq!(table.get("b").unwrap().value, "2");
    table.delete("a");
    assert!(table.get("a").is_none());
    assert_eq!(table.len(), 1);
}

#[test]
fn keys_and_texts_are_checked() {
    assert!(L1::validate_key("private:k").is_ok());
    assert!(matches!(L1::validate_key("\0"), Err(MemoryError::InvalidKey(_))));
    assert!(L1::validate_entry("k", "v").is_ok());
    assert!(matches!(
        L1::validate_entry("k", &"v".repeat(1_048_577)),
        Err(MemoryError::EntryTooLarge { size: 1_048_577, max: 1_048_576, .. })
    ));
}
