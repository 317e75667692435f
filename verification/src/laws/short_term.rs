//! What short-term memory promises of its rows.

use crate::clock::MomentModel;
use crate::common::{EntryModel, Importance, Layer};
use crate::l1::{
    dropped, dropped_means_outlived, entry_of, is_expired, is_stale, key_problem, row_of,
    small_enough, RowModel,
};
use vstd::prelude::*;

verus! {

/// A collection at a point in time drops a key exactly where a row with it has
/// passed its time of expiry, whatever its importance, or was last accessed more
/// than the given seconds ago and is of a level below critical, which is four.
pub proof fn outlived_rows_are_dropped(
    rows: Seq<RowModel>,
    at: int,
    ttl_secs: int,
    key: Seq<char>,
)
    ensures
        dropped(rows, at, ttl_secs).contains(key) <==> exists|i: int|
            {
                &&& 0 <= i < rows.len()
                &&& (#[trigger] rows[i]).key == key
                &&& (rows[i].expires_at is Some && rows[i].expires_at->0 < at) || (
                rows[i].last_accessed + ttl_secs * 1000 < at && rows[i].importance < 4)
            },
{
    dropped_means_outlived(rows, at, ttl_secs, key);
    if dropped(rows, at, ttl_secs).contains(key) {
        let i = choose|i: int|
            0 <= i < rows.len() && (#[trigger] rows[i]).key == key && (is_expired(rows[i], at)
                || is_stale(rows[i], at, ttl_secs));
        assert(rows[i].key == key);
    }
    if exists|i: int|
        {
            &&& 0 <= i < rows.len()
            &&& (#[trigger] rows[i]).key == key
            &&& (rows[i].expires_at is Some && rows[i].expires_at->0 < at) || (
            rows[i].last_accessed + ttl_secs * 1000 < at && rows[i].importance < 4)
        } {
        let i = choose|i: int|
            {
                &&& 0 <= i < rows.len()
                &&& (#[trigger] rows[i]).key == key
                &&& (rows[i].expires_at is Some && rows[i].expires_at->0 < at) || (
                rows[i].last_accessed + ttl_secs * 1000 < at && rows[i].importance < 4)
            };
        assert(is_expired(rows[i], at) || is_stale(rows[i], at, ttl_secs));
    }
}

/// A collection names the key of each row that it drops, in the order of the
/// rows.
pub proof fn dropped_keys_are_in_order(rows: Seq<RowModel>, at: int, ttl_secs: int)
    ensures
        dropped(rows, at, ttl_secs) == rows.filter(
            |r: RowModel|
                (r.expires_at is Some && r.expires_at->0 < at) || (r.last_accessed + ttl_secs
                    * 1000 < at && r.importance < 4),
        ).map_values(|r: RowModel| r.key),
    decreases rows.len(),
{
    reveal(Seq::filter);
    let goes = |r: RowModel|
        (r.expires_at is Some && r.expires_at->0 < at) || (r.last_accessed + ttl_secs * 1000 < at
            && r.importance < 4);
    let key_in = |r: RowModel| r.key;
    if rows.len() > 0 {
        let rest = rows.drop_last();
        dropped_keys_are_in_order(rest, at, ttl_secs);
        assert(dropped(rows, at, ttl_secs) =~= rows.filter(goes).map_values(key_in));
    } else {
        assert(dropped(rows, at, ttl_secs) =~= rows.filter(goes).map_values(key_in));
    }
}

/// An entry that is not critical is dropped once it was not accessed for longer
/// than the given seconds since it was written, and any entry once its time of
/// expiry has passed.
pub proof fn written_entry_is_dropped_in_time(
    rows: Seq<RowModel>,
    i: int,
    key: Seq<char>,
    entry: EntryModel,
    written: MomentModel,
    seq: u64,
    at: int,
    ttl_secs: int,
)
    requires
        0 <= i < rows.len(),
        rows[i] == row_of(key, entry, written, seq),
        (entry.importance != Importance::Critical && at > written.millis() + ttl_secs * 1000) || (
        entry.expires_at is Some && entry.expires_at->0.millis() < at),
    ensures
        dropped(rows, at, ttl_secs).contains(key),
{
    outlived_rows_are_dropped(rows, at, ttl_secs, key);
    assert(rows[i].key == key);
}

/// An entry that has not passed its time of expiry is not dropped while it is
/// critical, nor within the given seconds after it was written.
pub proof fn written_entry_is_not_dropped_early(
    rows: Seq<RowModel>,
    key: Seq<char>,
    entry: EntryModel,
    written: MomentModel,
    seq: u64,
    at: int,
    ttl_secs: int,
)
    requires
        forall|i: int|
            0 <= i < rows.len() && (#[trigger] rows[i]).key == key ==> rows[i] == row_of(
                key,
                entry,
                written,
                seq,
            ),
        entry.importance == Importance::Critical || at <= written.millis() + ttl_secs * 1000,
        entry.expires_at is None || entry.expires_at->0.millis() >= at,
    ensures
        !dropped(rows, at, ttl_secs).contains(key),
{
    outlived_rows_are_dropped(rows, at, ttl_secs, key);
}

/// A row holds what the entry holds: identifier, text and source as they are,
/// the level of the importance, the name of the layer, and the times in
/// milliseconds.
pub proof fn row_holds_the_entry(key: Seq<char>, entry: EntryModel, at: MomentModel, seq: u64)
    ensures
        ({
            let row = row_of(key, entry, at, seq);
            &&& row.key == key && row.id == entry.id && row.value == entry.value
            &&& row.source == entry.source && row.seq == seq
            &&& row.importance == (match entry.importance {
                Importance::Low => 1i32,
                Importance::Normal => 2i32,
                Importance::High => 3i32,
                Importance::Critical => 4i32,
            })
            &&& row.layer == (match entry.layer {
                Layer::Private => "private"@,
                Layer::Public => "public"@,
            })
            &&& row.created_at == entry.created_at.secs * 1000 + entry.created_at.nanos
                / 1_000_000
            &&& row.last_accessed == at.secs * 1000 + at.nanos / 1_000_000
            &&& match entry.expires_at {
                Some(end) => row.expires_at == Some(end.secs * 1000 + end.nanos / 1_000_000),
                None => row.expires_at is None,
            }
        }),
{
}

/// The entry that is read from a row has its identifier, key, text and source,
/// and its times to the millisecond; an unknown level is normal.
pub proof fn row_is_read(row: RowModel)
    ensures
        ({
            let entry = entry_of(row);
            &&& entry.id == row.id && entry.key == row.key && entry.value == row.value
            &&& entry.source == row.source && entry.tags.len() == 0
            &&& entry.created_at.millis() == row.created_at
            &&& entry.last_accessed.millis() == row.last_accessed
            &&& match row.expires_at {
                Some(end) => entry.expires_at is Some && entry.expires_at->0.millis() == end,
                None => entry.expires_at is None,
            }
            &&& row.importance == 4 <==> entry.importance == Importance::Critical
            &&& row.importance == 3 <==> entry.importance == Importance::High
            &&& row.importance == 1 <==> entry.importance == Importance::Low
        }),
{
}

/// A key is taken exactly where it has at most 512 bytes and no null character,
/// and a text where it has at most a megabyte.
pub proof fn limits_of_keys_and_texts(key: Seq<char>, value: Seq<char>)
    ensures
        key_problem(key) is None <==> vstd::utf8::encode_utf8(key).len() <= 512 && !key.contains(
            '\0',
        ),
        small_enough(value) <==> vstd::utf8::encode_utf8(value).len() <= 1024 * 1024,
{
}

} // verus!
