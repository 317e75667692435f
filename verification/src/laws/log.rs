//! What the write-ahead log promises.

use crate::laws::text::parts_stand_at_places;
use crate::sort::text_le;
use crate::text::{
    all_digits, decimal_of, lemma_decimal, lemma_padded, number_of, padded, unsigned_up_to,
    without_prefix, without_suffix,
};
use crate::wal::{
    dir_with, frame_of, highest_seq, is_log_file, is_replay_order, log_files_of, log_of,
    payloads_in, payloads_in_all, records_of, wal_name_of, wal_seq_of, Wal,
};
use vstd::bytes::{spec_u32_from_le_bytes, spec_u32_to_le_bytes};
use vstd::prelude::*;

verus! {

/// A record is the four letters `WAL1`, the length of its payload in four bytes,
/// the lowest first, and the payload.
pub proof fn records_begin_with_their_length(payload: Seq<u8>)
    requires
        payload.len() < 0x1_0000_0000,
    ensures
        frame_of(payload) == seq![87u8, 65u8, 76u8, 49u8] + spec_u32_to_le_bytes(
            payload.len() as u32,
        ) + payload,
{
    assert(payload.len() % 0x1_0000_0000 == payload.len());
}

/// Records follow each other in a log.
pub proof fn logs_are_records_in_order(payloads: Seq<Seq<u8>>, payload: Seq<u8>)
    ensures
        log_of(Seq::empty()) == Seq::<u8>::empty(),
        log_of(payloads.push(payload)) == log_of(payloads) + frame_of(payload),
    decreases payloads.len(),
{
    let all = payloads.push(payload);
    if payloads.len() > 0 {
        logs_are_records_in_order(payloads.skip(1), payload);
        assert(all.skip(1) =~= payloads.skip(1).push(payload));
        assert(log_of(all) =~= log_of(payloads) + frame_of(payload));
    } else {
        assert(all.skip(1) =~= Seq::empty());
        assert(log_of(all.skip(1)) =~= Seq::<u8>::empty());
        assert(log_of(all) =~= log_of(payloads) + frame_of(payload));
    }
}

/// Nothing is read where the letters are missing, where fewer bytes are left
/// than a record begins with, or where fewer are left than the length says; a
/// whole record is read, and reading goes on after it.
pub proof fn whole_records_are_read(bytes: Seq<u8>)
    ensures
        bytes.len() < 8 ==> payloads_in(bytes).len() == 0,
        bytes.len() >= 8 && bytes.take(4) != seq![87u8, 65u8, 76u8, 49u8] ==> payloads_in(
            bytes,
        ).len() == 0,
        bytes.len() >= 8 && bytes.take(4) == seq![87u8, 65u8, 76u8, 49u8] ==> ({
            let n = spec_u32_from_le_bytes(bytes.subrange(4, 8)) as int;
            &&& bytes.len() < 8 + n ==> payloads_in(bytes).len() == 0
            &&& bytes.len() >= 8 + n ==> payloads_in(bytes) == seq![bytes.subrange(8, 8 + n)]
                + payloads_in(bytes.skip(8 + n))
        }),
{
}

/// Files are read one after the other.
pub proof fn files_are_read_in_order(files: Seq<Seq<u8>>, file: Seq<u8>)
    ensures
        payloads_in_all(Seq::empty()) == Seq::<Seq<u8>>::empty(),
        payloads_in_all(files.push(file)) == payloads_in_all(files) + payloads_in(file),
{
    assert(files.push(file).drop_last() =~= files);
}

/// A log file is named `wal_`, its number in six digits or as many as it takes,
/// and `.wal`.
pub proof fn log_files_are_named_by_number(seq: nat)
    ensures
        wal_name_of(seq) == seq!['w', 'a', 'l', '_'] + padded(decimal_of(seq), 6) + seq![
            '.',
            'w',
            'a',
            'l',
        ],
        number_of(padded(decimal_of(seq), 6)) == seq,
        all_digits(padded(decimal_of(seq), 6)),
        padded(decimal_of(seq), 6).len() >= 6,
        decimal_of(seq).len() >= 6 ==> padded(decimal_of(seq), 6) == decimal_of(seq),
{
    reveal_strlit("wal_");
    reveal_strlit(".wal");
    assert("wal_"@ =~= seq!['w', 'a', 'l', '_']);
    assert(".wal"@ =~= seq!['.', 'w', 'a', 'l']);
    lemma_decimal(seq);
    lemma_padded(decimal_of(seq), 6);
}

/// The number of a log file is what stands between `wal_` and `.wal`, where that
/// is a number of 32 bits.
pub proof fn numbers_are_read_from_names(digits: Seq<char>)
    ensures
        wal_seq_of(seq!['w', 'a', 'l', '_'] + digits + seq!['.', 'w', 'a', 'l'])
            == unsigned_up_to(digits, 0xffff_ffff),
{
    reveal_strlit("wal_");
    reveal_strlit(".wal");
    let front = "wal_"@;
    let end = ".wal"@;
    assert(front =~= seq!['w', 'a', 'l', '_']);
    assert(end =~= seq!['.', 'w', 'a', 'l']);
    let rest = digits + end;
    assert(rest.take(rest.len() - 4) =~= digits);
    assert(rest.subrange(rest.len() - 4, rest.len() as int) =~= end);
    assert(without_suffix(rest, end) == Some(digits));
    let full = front + digits + end;
    assert(full.subrange(0, 4) =~= front);
    assert(full.skip(4) =~= rest);
    assert(without_prefix(full, front) == Some(rest));
}

/// A name that has a number begins with `wal_` and ends with `.wal`.
pub proof fn numbered_names_have_both_ends(name: Seq<char>)
    requires
        wal_seq_of(name) is Some,
    ensures
        name.len() >= 8,
        name.take(4) == seq!['w', 'a', 'l', '_'],
        name.skip(name.len() - 4) == seq!['.', 'w', 'a', 'l'],
{
    reveal_strlit("wal_");
    reveal_strlit(".wal");
    assert("wal_"@ =~= seq!['w', 'a', 'l', '_']);
    assert(".wal"@ =~= seq!['.', 'w', 'a', 'l']);
    parts_stand_at_places(name, "wal_"@);
    let after = name.skip(4);
    parts_stand_at_places(after, ".wal"@);
    assert(name.skip(name.len() - 4) =~= after.skip(after.len() - 4));
}

/// The highest number among log files is that of one of them and none has a
/// higher one; it is zero where none has a number.
pub proof fn highest_number_is_that_of_a_file(names: Seq<Seq<char>>)
    ensures
        forall|i: int|
            0 <= i < names.len() && wal_seq_of(#[trigger] names[i]) is Some ==> wal_seq_of(
                names[i],
            )->0 <= highest_seq(names),
        highest_seq(names) == 0 || exists|i: int|
            0 <= i < names.len() && wal_seq_of(#[trigger] names[i]) == Some(highest_seq(names)),
    decreases names.len(),
{
    if names.len() > 0 {
        let rest = names.drop_last();
        let n = names.len() - 1;
        highest_number_is_that_of_a_file(rest);
        assert forall|i: int|
            0 <= i < names.len() && wal_seq_of(#[trigger] names[i]) is Some implies wal_seq_of(
            names[i],
        )->0 <= highest_seq(names) by {
            if i < n {
                assert(rest[i] == names[i]);
            }
        }
        if highest_seq(names) == highest_seq(rest) {
            if highest_seq(rest) != 0 {
                let i = choose|i: int|
                    0 <= i < rest.len() && wal_seq_of(#[trigger] rest[i]) == Some(
                        highest_seq(rest),
                    );
                assert(names[i] == rest[i]);
            }
        } else {
            assert(wal_seq_of(names[n]) == Some(highest_seq(names)));
        }
    }
}

/// A file is a log file exactly where its name ends with `.wal` and has something
/// before; log files are replayed in the order of their names, each of them and
/// no other file.
pub proof fn log_files_are_replayed_by_name(
    names: Seq<Seq<char>>,
    files: Seq<Seq<char>>,
    name: Seq<char>,
)
    requires
        is_replay_order(names, files),
    ensures
        is_log_file(name) <==> name.len() > 4 && name.skip(name.len() - 4) == seq![
            '.',
            'w',
            'a',
            'l',
        ],
        files.contains(name) <==> names.contains(name) && is_log_file(name),
        files.to_multiset() == names.filter(
            |n: Seq<char>| n.len() > 4 && n.skip(n.len() - 4) == seq!['.', 'w', 'a', 'l'],
        ).to_multiset(),
        forall|i: int, j: int|
            0 <= i < j < files.len() ==> text_le(#[trigger] files[i], #[trigger] files[j]),
{
    broadcast use {
        vstd::seq_lib::group_to_multiset_ensures,
        vstd::seq_lib::group_filter_ensures,
    };

    lemma_log_file(name);
    let kept = log_files_of(names);
    assert(files.contains(name) <==> files.to_multiset().count(name) > 0);
    assert(kept.contains(name) <==> kept.to_multiset().count(name) > 0);
    if kept.contains(name) {
        crate::sort::lemma_filter_within(names, crate::wal::log_names(), name);
    }
    if names.contains(name) && is_log_file(name) {
        assert(crate::wal::log_names()(name));
        let i = names.index_of(name);
        assert(kept.contains(names[i]));
    }
    lemma_kept(names);
}

proof fn lemma_log_file(name: Seq<char>)
    ensures
        is_log_file(name) <==> name.len() > 4 && name.skip(name.len() - 4) == seq![
            '.',
            'w',
            'a',
            'l',
        ],
{
    reveal_strlit(".wal");
    assert(".wal"@ =~= seq!['.', 'w', 'a', 'l']);
    parts_stand_at_places(name, ".wal"@);
}

proof fn lemma_kept(names: Seq<Seq<char>>)
    ensures
        log_files_of(names) == names.filter(
            |n: Seq<char>| n.len() > 4 && n.skip(n.len() - 4) == seq!['.', 'w', 'a', 'l'],
        ),
    decreases names.len(),
{
    reveal(Seq::filter);
    let is_log = |n: Seq<char>| n.len() > 4 && n.skip(n.len() - 4) == seq!['.', 'w', 'a', 'l'];
    if names.len() > 0 {
        lemma_kept(names.drop_last());
        lemma_log_file(names.last());
        assert(crate::wal::log_names()(names.last()) == is_log(names.last()));
    }
    assert(log_files_of(names) =~= names.filter(is_log));
}

/// A record starts a new file exactly where none is open, or where ten megabytes
/// or more have been written to the open one.
pub proof fn files_are_full_at_ten_megabytes(wal: Wal)
    ensures
        wal.must_roll() <==> !wal.is_open() || wal.written() >= 10 * 1024 * 1024,
{
}

/// A record that is written goes into a new file, or to the end of the current
/// one; all other files stay.
pub proof fn writing_touches_one_file(
    dir: Map<Seq<char>, Seq<u8>>,
    current: Seq<char>,
    name: Seq<char>,
    record: Seq<u8>,
    other: Seq<char>,
)
    requires
        dir.contains_key(current),
    ensures
        dir_with(dir, current, Some(name), record) == dir.insert(name, record),
        dir_with(dir, current, None, record).contains_key(current),
        dir_with(dir, current, None, record)[current] == dir[current] + record,
        other != current ==> dir_with(dir, current, None, record).contains_key(other)
            == dir.contains_key(other),
        other != current && dir.contains_key(other) ==> dir_with(dir, current, None, record)[other]
            == dir[other],
{
}

/// All records of a log are those of its files, one file after the other.
pub proof fn records_are_those_of_all_files(
    chunks: Seq<Seq<Seq<u8>>>,
    chunk: Seq<Seq<u8>>,
)
    ensures
        records_of(Seq::empty()) == Seq::<Seq<u8>>::empty(),
        records_of(chunks.push(chunk)) == records_of(chunks) + chunk,
{
    assert(chunks.push(chunk).drop_last() =~= chunks);
}

} // verus!
