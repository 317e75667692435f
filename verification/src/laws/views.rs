//! What the mathematical values of the types stand for.

use crate::common::{
    admitted_by, entries_of, results_of, Entry, EntryModel, L1Event, RecallRequest, RecallResult,
};
use crate::embed::{EMBED_MODEL, FAILURE_LIMIT, OPEN_MILLIS};
use crate::fusion::{raw_of, raw_scores, scored_of};
use crate::l0::{L0Stats, DEFAULT_L0_MAX_ENTRIES};
use crate::l1::{rows_of, Row};
use crate::l2::{similar_of, vector_list, EMBED_BATCH, SEMANTIC_TOP_K};
use crate::l3::ParsedBlock;
use crate::openclaw::logs_of;
use crate::system::health_of;
use crate::text::{decimal_of, pieces, texts};
use crate::wal::byte_strings;
use vstd::prelude::*;

verus! {

/// An entry stands for all that it holds.
pub proof fn entries_stand_for_what_they_hold(entry: Entry)
    ensures
        entry@.id == entry.id@ && entry@.key == entry.key@ && entry@.value == entry.value@,
        entry@.source == entry.source@ && entry@.importance == entry.importance,
        entry@.layer == entry.layer && entry@.tags.len() == entry.tags@.len(),
        forall|i: int|
            0 <= i < entry.tags@.len() ==> #[trigger] entry@.tags[i] == entry.tags@[i]@,
        entry@.created_at == entry.created_at@ && entry@.last_accessed == entry.last_accessed@,
        entry.expires_at is None ==> entry@.expires_at is None,
        entry.expires_at is Some ==> entry@.expires_at == Some(entry.expires_at->0@),
{
}

/// A row and a result stand for all that they hold.
pub proof fn rows_and_results_stand_for_what_they_hold(row: Row, result: RecallResult)
    ensures
        row@.key == row.key@ && row@.id == row.id@ && row@.value == row.value@,
        row@.source == row.source@ && row@.layer == row.layer@,
        row@.importance == row.importance && row@.seq == row.seq,
        row@.created_at == row.created_at && row@.last_accessed == row.last_accessed,
        row.expires_at is None ==> row@.expires_at is None,
        row.expires_at is Some ==> row@.expires_at == Some(row.expires_at->0 as int),
        result@.entry == result.entry@ && result@.score == result.score,
        result@.from_layer == result.from_layer@,
{
}

/// A block that was read stands for all that it holds.
pub proof fn blocks_stand_for_what_they_hold(block: ParsedBlock)
    ensures
        block@.key == block.key@ && block@.value == block.value@,
        block@.importance == block.importance && block@.source == block.source@,
        block@.tags.len() == block.tags@.len(),
        forall|i: int|
            0 <= i < block.tags@.len() ==> #[trigger] block@.tags[i] == block.tags@[i]@,
{
}

/// Lists of texts, bytes and vectors stand for their items, one by one.
pub proof fn lists_stand_for_their_items(
    strings: Seq<String>,
    parts: Seq<Vec<char>>,
    bytes: Seq<Vec<u8>>,
    vectors: Seq<(String, Vec<u32>)>,
    logs: Seq<(String, String)>,
    i: int,
)
    ensures
        texts(strings).len() == strings.len(),
        0 <= i < strings.len() ==> texts(strings)[i] == strings[i]@,
        pieces(parts).len() == parts.len(),
        0 <= i < parts.len() ==> pieces(parts)[i] == parts[i]@,
        byte_strings(bytes).len() == bytes.len(),
        0 <= i < bytes.len() ==> byte_strings(bytes)[i] == bytes[i]@,
        vector_list(vectors).len() == vectors.len(),
        0 <= i < vectors.len() ==> vector_list(vectors)[i] == (vectors[i].0@, vectors[i].1@),
        logs_of(logs).len() == logs.len(),
        0 <= i < logs.len() ==> logs_of(logs)[i] == (logs[i].0@, logs[i].1@),
{
}

/// Lists of entries, rows, results and scores stand for their items, one by one.
pub proof fn lists_of_entries_stand_for_their_items(
    entries: Seq<Entry>,
    rows: Seq<Row>,
    results: Seq<RecallResult>,
    raw: Seq<(String, i64)>,
    scored: Seq<(String, u64)>,
    i: int,
)
    ensures
        entries_of(entries).len() == entries.len(),
        0 <= i < entries.len() ==> entries_of(entries)[i] == entries[i]@,
        rows_of(rows).len() == rows.len(),
        0 <= i < rows.len() ==> rows_of(rows)[i] == rows[i]@,
        results_of(results).len() == results.len(),
        0 <= i < results.len() ==> results_of(results)[i] == results[i]@,
        raw_of(raw).len() == raw.len(),
        0 <= i < raw.len() ==> raw_of(raw)[i] == (raw[i].0@, raw[i].1),
        raw_scores(raw_of(raw)).len() == raw.len(),
        0 <= i < raw.len() ==> raw_scores(raw_of(raw))[i] == raw[i].1,
        scored_of(scored).len() == scored.len(),
        0 <= i < scored.len() ==> scored_of(scored)[i] == (scored[i].0@, scored[i].1),
{
}

/// A list of similarities that may be missing, a request and a list of issues
/// stand for what they hold.
pub proof fn optional_lists_stand_for_their_items(
    similar: Option<Vec<(String, i64)>>,
    health: Seq<(&'static str, Option<String>)>,
    req: RecallRequest,
    entry: EntryModel,
    i: int,
)
    ensures
        similar is None ==> similar_of(similar) is None,
        similar is Some ==> similar_of(similar) == Some(raw_of(similar->0@)),
        health_of(health).len() == health.len(),
        0 <= i < health.len() && health[i].1 is Some ==> health_of(health)[i] == (
            health[i].0@,
            Some(health[i].1->0@),
        ),
        0 <= i < health.len() && health[i].1 is None ==> health_of(health)[i] == (
            health[i].0@,
            None::<Seq<char>>,
        ),
        admitted_by(req)(entry) == req.admits(entry),
{
}

/// The number of a change is that of its event.
pub proof fn events_are_numbered(event: L1Event)
    ensures
        event is Upsert ==> event.seq_of() == event->Upsert_seq,
        event is Delete ==> event.seq_of() == event->Delete_seq,
{
}

/// How much is held, asked for and tried where nothing else is said.
pub proof fn limits_are_as_documented(stats: L0Stats)
    ensures
        DEFAULT_L0_MAX_ENTRIES == 10_000,
        SEMANTIC_TOP_K == 20,
        EMBED_BATCH == 50,
        FAILURE_LIMIT == 5,
        OPEN_MILLIS == 60 * 1000,
        EMBED_MODEL@ == "models/gemini-embedding-001"@,
        stats.text_of() == "L0 { entries: "@ + decimal_of(stats.entries as nat) + "/"@ + decimal_of(
            stats.capacity as nat,
        ) + " }"@,
{
}

} // verus!
