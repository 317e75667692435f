//! Short-term memory: what is written to, read from and dropped from the
//! table of recent entries.
//!
//! The table itself is a database that the caller runs. This module says which
//! row an entry becomes and which entry a row is, numbers the changes, finds
//! entries by keyword and decides which rows have had their time.

use crate::clock::{is_representable, representable, Moment, MomentModel};
use crate::common::{
    entries_of, importance_survives_its_level, layer_survives_its_prefix, results_of, Entry,
    EntryModel, Importance, L1Event, Layer, RecallResult, ResultModel,
};
use crate::errors::MemoryError;
use crate::text::{chars_of, contains, lemma_texts_push, lowercase, occurs, texts};
use vstd::prelude::*;
use vstd::string::*;

verus! {

/// Score of an entry whose key holds the query.
pub const KEY_SCORE: u64 = 800_000_000_000;

/// Score of an entry whose text alone holds the query.
pub const VALUE_SCORE: u64 = 500_000_000_000;

/// A row of the table of entries. Points in time are milliseconds.
#[derive(Debug)]
pub struct Row {
    pub key: String,
    pub id: String,
    pub value: String,
    pub importance: i32,
    pub source: String,
    pub layer: String,
    pub created_at: i64,
    pub last_accessed: i64,
    pub expires_at: Option<i64>,
    pub seq: u64,
}

/// A row as mathematical values.
#[verifier::ext_equal]
pub struct RowModel {
    pub key: Seq<char>,
    pub id: Seq<char>,
    pub value: Seq<char>,
    pub importance: i32,
    pub source: Seq<char>,
    pub layer: Seq<char>,
    pub created_at: int,
    pub last_accessed: int,
    pub expires_at: Option<int>,
    pub seq: u64,
}

impl View for Row {
    type V = RowModel;

    open spec fn view(&self) -> RowModel {
        RowModel {
            key: self.key@,
            id: self.id@,
            value: self.value@,
            importance: self.importance,
            source: self.source@,
            layer: self.layer@,
            created_at: self.created_at as int,
            last_accessed: self.last_accessed as int,
            expires_at: match self.expires_at {
                Some(end) => Some(end as int),
                None => None,
            },
            seq: self.seq,
        }
    }
}

/// The rows of a sequence, as mathematical values.
pub open spec fn rows_of(v: Seq<Row>) -> Seq<RowModel> {
    v.map_values(|r: Row| r@)
}

/// A point in time that may be missing, in milliseconds.
pub open spec fn millis_of(end: Option<MomentModel>) -> Option<int> {
    match end {
        Some(at) => Some(at.millis()),
        None => None,
    }
}

/// The row that an entry becomes when it is written under a key. Tags are not
/// kept, and points in time are kept in milliseconds.
pub open spec fn row_of(
    key: Seq<char>,
    entry: EntryModel,
    at: MomentModel,
    seq: u64,
) -> RowModel {
    RowModel {
        key,
        id: entry.id,
        value: entry.value,
        importance: entry.importance.level_of() as i32,
        source: entry.source,
        layer: entry.layer.prefix_of(),
        created_at: entry.created_at.millis(),
        last_accessed: at.millis(),
        expires_at: millis_of(entry.expires_at),
        seq,
    }
}

/// The entry that a row is.
pub open spec fn entry_of(row: RowModel) -> EntryModel {
    EntryModel {
        id: row.id,
        key: row.key,
        value: row.value,
        importance: Importance::with_level(row.importance as int),
        tags: Seq::empty(),
        source: row.source,
        layer: Layer::named(row.layer),
        created_at: MomentModel::of_millis(row.created_at),
        last_accessed: MomentModel::of_millis(row.last_accessed),
        expires_at: match row.expires_at {
            Some(end) => Some(MomentModel::of_millis(end)),
            None => None,
        },
    }
}

/// Whether the points in time of a row are ones that a date and time can hold.
pub open spec fn has_valid_times(row: RowModel) -> bool {
    &&& representable(row.created_at)
    &&& representable(row.last_accessed)
    &&& match row.expires_at {
        Some(at) => representable(at),
        None => true,
    }
}

/// What is kept of an entry that is written under a key: everything but its
/// tags and what is finer than a millisecond, with the time of writing as the
/// time of the last access.
pub open spec fn as_stored(key: Seq<char>, entry: EntryModel, at: MomentModel) -> EntryModel {
    EntryModel {
        key,
        tags: Seq::empty(),
        created_at: entry.created_at.to_millis(),
        last_accessed: at.to_millis(),
        expires_at: match entry.expires_at {
            Some(end) => Some(end.to_millis()),
            None => None,
        },
        ..entry
    }
}

/// What is written is read back, as far as it is kept.
pub proof fn row_is_read_back(key: Seq<char>, entry: EntryModel, at: MomentModel, seq: u64)
    ensures
        entry_of(row_of(key, entry, at, seq)) == as_stored(key, entry, at),
{
    importance_survives_its_level(entry.importance);
    layer_survives_its_prefix(entry.layer);
}

/// The table after a row was put, in place of one with its key; unchanged where
/// that failed.
pub open spec fn table_with(
    table: Map<Seq<char>, RowModel>,
    row: RowModel,
    stored: bool,
) -> Map<Seq<char>, RowModel> {
    if stored {
        table.insert(row.key, row)
    } else {
        table
    }
}

/// The table after a row was deleted; unchanged where that failed.
pub open spec fn table_without(
    table: Map<Seq<char>, RowModel>,
    key: Seq<char>,
    stored: bool,
) -> Map<Seq<char>, RowModel> {
    if stored {
        table.remove(key)
    } else {
        table
    }
}

/// The entry that the table holds under a key.
pub open spec fn table_entry(table: Map<Seq<char>, RowModel>, key: Seq<char>) -> Option<EntryModel> {
    if table.contains_key(key) {
        Some(entry_of(table[key]))
    } else {
        None
    }
}

/// A write that was stored changes the row of its key alone: the next read of
/// the key gives the entry back, every other row stays, and there is one row
/// more exactly where the key had none. One that failed changes nothing.
pub proof fn write_changes_one_row(
    table: Map<Seq<char>, RowModel>,
    key: Seq<char>,
    entry: EntryModel,
    at: MomentModel,
    seq: u64,
    other: Seq<char>,
)
    requires
        table.dom().finite(),
    ensures
        table_entry(table_with(table, row_of(key, entry, at, seq), true), key) == Some(
            as_stored(key, entry, at),
        ),
        other != key ==> table_entry(table_with(table, row_of(key, entry, at, seq), true), other)
            == table_entry(table, other),
        table_with(table, row_of(key, entry, at, seq), true).len() == table.len() + (
        if table.contains_key(key) {
            0int
        } else {
            1
        }),
        table_with(table, row_of(key, entry, at, seq), false) == table,
{
    row_is_read_back(key, entry, at, seq);
    let after = table_with(table, row_of(key, entry, at, seq), true);
    assert(after.dom() =~= table.dom().insert(key));
}

/// A deletion that was stored takes the row of its key alone: the next read of
/// the key finds nothing, every other row stays, and there is one row less
/// exactly where the key had one. One that failed changes nothing.
pub proof fn delete_changes_one_row(
    table: Map<Seq<char>, RowModel>,
    key: Seq<char>,
    other: Seq<char>,
)
    requires
        table.dom().finite(),
    ensures
        table_entry(table_without(table, key, true), key) is None,
        other != key ==> table_entry(table_without(table, key, true), other) == table_entry(
            table,
            other,
        ),
        table_without(table, key, true).len() == table.len() - (if table.contains_key(key) {
            1int
        } else {
            0
        }),
        table_without(table, key, false) == table,
{
    let after = table_without(table, key, true);
    assert(after.dom() =~= table.dom().remove(key));
}

/// What is sent to the layers that follow, once a change was tried on the
/// table: the event where the change was stored, and nothing where it failed.
pub fn publish(event: L1Event, stored: bool) -> (r: Option<L1Event>)
    ensures
        r == (if stored {
            Some(event)
        } else {
            None
        }),
{
    if stored {
        Some(event)
    } else {
        None
    }
}

/// Bytes that a key has at most.
pub const MAX_KEY_BYTES: usize = 512;

/// Bytes that the text of an entry has at most.
pub const MAX_VALUE_BYTES: usize = 1_048_576;

/// What is wrong with a key: it is too long, or holds a null character.
pub open spec fn key_problem(key: Seq<char>) -> Option<Seq<char>> {
    if vstd::utf8::encode_utf8(key).len() > MAX_KEY_BYTES {
        Some("key 超过 512 字节"@)
    } else if key.contains('\0') {
        Some("key 包含 null byte"@)
    } else {
        None
    }
}

/// Whether a text is small enough for an entry.
pub open spec fn small_enough(value: Seq<char>) -> bool {
    vstd::utf8::encode_utf8(value).len() <= MAX_VALUE_BYTES
}

/// What short-term memory knows besides its table: the number of the last
/// change.
pub struct L1 {
    seq: u64,
}

/// What to do for a write: the row to put, and the event to send once it is
/// there.
pub struct Write {
    pub row: Row,
    pub event: L1Event,
}

/// The score of an entry for a query in small letters: by its key, by its text,
/// or none.
pub open spec fn keyword_score(entry: EntryModel, query: Seq<char>) -> Option<u64> {
    if occurs(lowercase(entry.key), query) {
        Some(KEY_SCORE)
    } else if occurs(lowercase(entry.value), query) {
        Some(VALUE_SCORE)
    } else {
        None
    }
}

/// The results for a query in small letters, in the order of the entries.
pub open spec fn keyword_results(entries: Seq<EntryModel>, query: Seq<char>) -> Seq<ResultModel>
    decreases entries.len(),
{
    if entries.len() == 0 {
        Seq::empty()
    } else {
        let rest = keyword_results(entries.drop_last(), query);
        match keyword_score(entries.last(), query) {
            Some(score) => rest.push(
                ResultModel { entry: entries.last(), score, from_layer: "L1"@ },
            ),
            None => rest,
        }
    }
}

/// Whether a row has passed its time of expiry.
pub open spec fn is_expired(row: RowModel, at: int) -> bool {
    match row.expires_at {
        Some(end) => end < at,
        None => false,
    }
}

/// Whether a row that has not passed its time of expiry was not accessed for
/// longer than the given seconds, and is not critical.
pub open spec fn is_stale(row: RowModel, at: int, ttl_secs: int) -> bool {
    !is_expired(row, at) && row.last_accessed < at - ttl_secs * 1000 && row.importance < 4
}

/// The keys of the rows that are dropped, in order.
pub open spec fn dropped(rows: Seq<RowModel>, at: int, ttl_secs: int) -> Seq<Seq<char>>
    decreases rows.len(),
{
    if rows.len() == 0 {
        Seq::empty()
    } else if is_expired(rows.last(), at) || is_stale(rows.last(), at, ttl_secs) {
        dropped(rows.drop_last(), at, ttl_secs).push(rows.last().key)
    } else {
        dropped(rows.drop_last(), at, ttl_secs)
    }
}

/// A critical entry that has not passed its time of expiry is never dropped,
/// however long it was not accessed.
pub proof fn critical_entries_stay(
    key: Seq<char>,
    entry: EntryModel,
    written: MomentModel,
    seq: u64,
    at: int,
    ttl_secs: int,
)
    requires
        entry.importance == Importance::Critical,
        entry.expires_at is None || entry.expires_at->0.millis() >= at,
    ensures
        !is_expired(row_of(key, entry, written, seq), at),
        !is_stale(row_of(key, entry, written, seq), at, ttl_secs),
{
}

/// An entry that has not passed its time of expiry is not dropped within the
/// given seconds after it was written.
pub proof fn fresh_entries_stay(
    key: Seq<char>,
    entry: EntryModel,
    written: MomentModel,
    seq: u64,
    at: int,
    ttl_secs: int,
)
    requires
        at <= written.millis() + ttl_secs * 1000,
        entry.expires_at is None || entry.expires_at->0.millis() >= at,
    ensures
        !is_expired(row_of(key, entry, written, seq), at),
        !is_stale(row_of(key, entry, written, seq), at, ttl_secs),
{
}

/// The keys that are dropped are those of rows that have passed their time of
/// expiry or are stale, and no others.
pub proof fn dropped_means_outlived(
    rows: Seq<RowModel>,
    at: int,
    ttl_secs: int,
    key: Seq<char>,
)
    ensures
        dropped(rows, at, ttl_secs).contains(key) <==> exists|i: int|
            0 <= i < rows.len() && (#[trigger] rows[i]).key == key && (is_expired(rows[i], at)
                || is_stale(rows[i], at, ttl_secs)),
    decreases rows.len(),
{
    if rows.len() > 0 {
        let rest = rows.drop_last();
        let last = rows[rows.len() - 1];
        dropped_means_outlived(rest, at, ttl_secs, key);
        let d = dropped(rows, at, ttl_secs);
        let e = dropped(rest, at, ttl_secs);
        if d.contains(key) {
            let k = d.index_of(key);
            if k < e.len() {
                assert(e[k] == key);
                let i = choose|i: int|
                    0 <= i < rest.len() && (#[trigger] rest[i]).key == key && (is_expired(
                        rest[i],
                        at,
                    ) || is_stale(rest[i], at, ttl_secs));
                assert(rows[i] == rest[i]);
            } else {
                assert(last.key == key);
            }
        }
        if exists|i: int|
            0 <= i < rows.len() && (#[trigger] rows[i]).key == key && (is_expired(rows[i], at)
                || is_stale(rows[i], at, ttl_secs)) {
            let i = choose|i: int|
                0 <= i < rows.len() && (#[trigger] rows[i]).key == key && (is_expired(rows[i], at)
                    || is_stale(rows[i], at, ttl_secs));
            if i < rest.len() {
                assert(rest[i] == rows[i]);
                let k = e.index_of(key);
                assert(d[k] == key);
            } else {
                assert(d[d.len() - 1] == key);
            }
        }
    }
}

impl L1 {
    /// The number of the last change.
    pub closed spec fn last_seq(&self) -> u64 {
        self.seq
    }

    /// Short-term memory over a table whose highest number is `current_seq`.
    pub fn new(current_seq: u64) -> (r: Self)
        ensures
            r.last_seq() == current_seq,
    {
        L1 { seq: current_seq }
    }

    /// The number of the last change.
    pub fn seq(&self) -> (r: u64)
        ensures
            r == self.last_seq(),
    {
        self.seq
    }

    /// Makes sure that a key can be taken from outside.
    pub fn validate_key(key: &str) -> (r: Result<(), MemoryError>)
        ensures
            match r {
                Ok(_) => key_problem(key@) is None,
                Err(MemoryError::InvalidKey(message)) => key_problem(key@) == Some(message@),
                Err(_) => false,
            },
    {
        if key.as_bytes().len() > MAX_KEY_BYTES {
            return Err(MemoryError::InvalidKey("key 超过 512 字节".to_owned()));
        }
        let chars = chars_of(key);
        let n: usize = chars.len();
        for i in 0..n
            invariant
                n == chars@.len(),
                chars@ == key@,
                vstd::utf8::encode_utf8(key@).len() <= MAX_KEY_BYTES,
                forall|k: int| 0 <= k < i ==> #[trigger] chars@[k] != '\0',
        {
            if chars[i] == '\0' {
                proof {
                    assert(key@[i as int] == '\0');
                }
                return Err(MemoryError::InvalidKey("key 包含 null byte".to_owned()));
            }
        }
        Ok(())
    }

    /// Makes sure that the text of an entry is small enough.
    pub fn validate_entry(key: &str, value: &str) -> (r: Result<(), MemoryError>)
        ensures
            match r {
                Ok(_) => small_enough(value@),
                Err(MemoryError::EntryTooLarge { key: k, size, max }) => {
                    &&& !small_enough(value@)
                    &&& k@ == key@
                    &&& size == vstd::utf8::encode_utf8(value@).len()
                    &&& max == MAX_VALUE_BYTES
                },
                Err(_) => false,
            },
    {
        let size: usize = value.as_bytes().len();
        if size > MAX_VALUE_BYTES {
            Err(MemoryError::EntryTooLarge { key: key.to_owned(), size, max: MAX_VALUE_BYTES })
        } else {
            Ok(())
        }
    }

    /// What to do to write an entry under a key at a point in time.
    pub fn write(&mut self, key: &str, entry: &Entry, at: Moment) -> (r: Write)
        requires
            old(self).last_seq() < u64::MAX,
        ensures
            final(self).last_seq() == old(self).last_seq() + 1,
            r.row@ == row_of(key@, entry@, at@, final(self).last_seq()),
            match r.event {
                L1Event::Upsert { key: k, entry: e, seq } => k@ == key@ && e@ == entry@ && seq
                    == final(self).last_seq(),
                L1Event::Delete { .. } => false,
            },
    {
        self.seq = self.seq + 1;
        let row = Row {
            key: key.to_owned(),
            id: entry.id.clone(),
            value: entry.value.clone(),
            importance: entry.importance.level(),
            source: entry.source.clone(),
            layer: entry.layer.prefix().to_owned(),
            created_at: entry.created_at.millis(),
            last_accessed: at.millis(),
            expires_at: match entry.expires_at {
                Some(end) => Some(end.millis()),
                None => None,
            },
            seq: self.seq,
        };
        let event = L1Event::Upsert { key: key.to_owned(), entry: entry.clone(), seq: self.seq };
        Write { row, event }
    }

    /// The event to send once the entry under a key is deleted.
    pub fn delete(&mut self, key: &str) -> (r: L1Event)
        requires
            old(self).last_seq() < u64::MAX,
        ensures
            final(self).last_seq() == old(self).last_seq() + 1,
            match r {
                L1Event::Delete { key: k, seq } => k@ == key@ && seq == final(self).last_seq(),
                L1Event::Upsert { .. } => false,
            },
    {
        self.seq = self.seq + 1;
        L1Event::Delete { key: key.to_owned(), seq: self.seq }
    }

    /// The entry that a row is.
    pub fn get(row: &Row) -> (r: Entry)
        requires
            has_valid_times(row@),
        ensures
            r@ == entry_of(row@),
    {
        let tags: Vec<String> = Vec::new();
        proof {
            assert(texts(tags@) =~= Seq::empty());
        }
        Entry {
            id: row.id.clone(),
            key: row.key.clone(),
            value: row.value.clone(),
            importance: Importance::from(row.importance),
            tags,
            source: row.source.clone(),
            layer: Layer::from(row.layer.as_str()),
            created_at: Moment::of_millis(row.created_at).unwrap(),
            last_accessed: Moment::of_millis(row.last_accessed).unwrap(),
            expires_at: match row.expires_at {
                Some(end) => Moment::of_millis(end),
                None => None,
            },
        }
    }

    /// Whether the points in time of a row are ones that a date and time can
    /// hold.
    pub fn is_valid(row: &Row) -> (r: bool)
        ensures
            r == has_valid_times(row@),
    {
        is_representable(row.created_at) && is_representable(row.last_accessed)
            && match row.expires_at {
            Some(at) => is_representable(at),
            None => true,
        }
    }

    /// The entries that the rows are.
    pub fn full_scan(rows: &Vec<Row>) -> (r: Vec<Entry>)
        requires
            forall|i: int| 0 <= i < rows@.len() ==> has_valid_times((#[trigger] rows@[i])@),
        ensures
            r@.len() == rows@.len(),
            forall|i: int| 0 <= i < r@.len() ==> (#[trigger] r@[i])@ == entry_of(rows@[i]@),
    {
        let n: usize = rows.len();
        let mut r: Vec<Entry> = Vec::new();
        for i in 0..n
            invariant
                n == rows@.len(),
                forall|k: int| 0 <= k < rows@.len() ==> has_valid_times((#[trigger] rows@[k])@),
                r@.len() == i,
                forall|k: int| 0 <= k < i ==> (#[trigger] r@[k])@ == entry_of(rows@[k]@),
        {
            r.push(Self::get(&rows[i]));
        }
        r
    }

    /// The entries whose key or text holds the query, in letters of any case.
    pub fn recall(entries: &Vec<Entry>, query: &str) -> (r: Vec<RecallResult>)
        ensures
            results_of(r@) == keyword_results(entries_of(entries@), lowercase(query@)),
    {
        let lower = query.to_lowercase();
        let q = chars_of(lower.as_str());
        let n: usize = entries.len();
        let ghost all = entries_of(entries@);
        let mut r: Vec<RecallResult> = Vec::new();
        proof {
            assert(results_of(r@) =~= keyword_results(all.take(0), q@));
        }
        for i in 0..n
            invariant
                n == entries@.len(),
                all == entries_of(entries@),
                q@ == lowercase(query@),
                results_of(r@) == keyword_results(all.take(i as int), q@),
        {
            proof {
                assert(all.take(i + 1).drop_last() =~= all.take(i as int));
                assert(all.take(i + 1).last() == entries@[i as int]@);
            }
            let key_lower = entries[i].key.as_str().to_lowercase();
            let key = chars_of(key_lower.as_str());
            let value_lower = entries[i].value.as_str().to_lowercase();
            let value = chars_of(value_lower.as_str());
            let score: Option<u64> = if contains(key.as_slice(), q.as_slice()) {
                Some(KEY_SCORE)
            } else if contains(value.as_slice(), q.as_slice()) {
                Some(VALUE_SCORE)
            } else {
                None
            };
            match score {
                Some(s) => {
                    let ghost before = r@;
                    let result = RecallResult::new(entries[i].clone(), s, "L1");
                    r.push(result);
                    proof {
                        assert(results_of(r@) =~= results_of(before).push(result@));
                    }
                },
                None => {},
            }
        }
        proof {
            assert(all.take(n as int) =~= all);
        }
        r
    }

    /// The keys of the rows to drop: those that have passed their time of
    /// expiry, and those not accessed for `ttl_secs` seconds that are not
    /// critical.
    pub fn gc(rows: &Vec<Row>, at: Moment, ttl_secs: i64) -> (r: Vec<String>)
        ensures
            texts(r@) == dropped(rows_of(rows@), at@.millis(), ttl_secs as int),
    {
        let at: i64 = at.millis();
        let n: usize = rows.len();
        let ghost all = rows_of(rows@);
        let cutoff: i128 = at as i128 - ttl_secs as i128 * 1000;
        let mut r: Vec<String> = Vec::new();
        proof {
            assert(texts(r@) =~= dropped(all.take(0), at as int, ttl_secs as int));
        }
        for i in 0..n
            invariant
                n == rows@.len(),
                all == rows_of(rows@),
                cutoff == at - ttl_secs * 1000,
                texts(r@) == dropped(all.take(i as int), at as int, ttl_secs as int),
        {
            proof {
                assert(all.take(i + 1).drop_last() =~= all.take(i as int));
                assert(all.take(i + 1).last() == rows@[i as int]@);
            }
            let expired: bool = match rows[i].expires_at {
                Some(end) => end < at,
                None => false,
            };
            if expired || ((rows[i].last_accessed as i128) < cutoff && rows[i].importance < 4) {
                let key = rows[i].key.clone();
                proof {
                    lemma_texts_push(r@, key);
                }
                r.push(key);
            }
        }
        proof {
            assert(all.take(n as int) =~= all);
        }
        r
    }
}

} // verus!
