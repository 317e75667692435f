//! Write-ahead log: framing of records, replay, and the naming and rolling of
//! log files.
//!
//! A record is the four bytes `WAL1`, the length of the payload as four bytes
//! (least significant first), and the payload. Replay reads records from the
//! start of a file and stops at the first place where no whole record stands,
//! so a record that was cut short by a crash is dropped and everything before
//! it is kept.

use crate::sort::{ascending, lemma_filter_within, sort_names, text_le};
use crate::text::{
    chars_of, decimal_of, decimal_padded, ends, ends_with, lemma_decimal, lemma_padded,
    lemma_texts_push, number_of, padded, parse_unsigned, string_of, strip_prefix, strip_suffix,
    texts, unsigned_of, unsigned_up_to, without_prefix, without_suffix,
};
use vstd::bytes::*;
use vstd::prelude::*;
use vstd::slice::slice_subrange;
use vstd::string::*;

verus! {

broadcast use vstd::slice::group_slice_axioms;

/// Size at which a log file is full and the next record starts a new one.
pub const MAX_WAL_SIZE: u64 = 10_485_760;

/// The four bytes that start every record.
pub open spec fn magic() -> Seq<u8> {
    seq![87u8, 65u8, 76u8, 49u8]
}

/// The record that holds `payload`. Only the low 32 bits of the length are
/// kept.
pub open spec fn frame_of(payload: Seq<u8>) -> Seq<u8> {
    magic() + spec_u32_to_le_bytes((payload.len() % 0x1_0000_0000) as u32) + payload
}

/// The records that hold `payloads`, one after the other.
pub open spec fn log_of(payloads: Seq<Seq<u8>>) -> Seq<u8>
    decreases payloads.len(),
{
    if payloads.len() == 0 {
        Seq::empty()
    } else {
        frame_of(payloads[0]) + log_of(payloads.skip(1))
    }
}

/// Whether a whole record stands at the start of `bytes`.
pub open spec fn has_frame(bytes: Seq<u8>) -> bool {
    &&& bytes.len() >= 8
    &&& bytes.take(4) == magic()
    &&& bytes.len() >= 8 + spec_u32_from_le_bytes(bytes.subrange(4, 8))
}

/// The length of the payload of the record at the start of `bytes`.
pub open spec fn payload_len(bytes: Seq<u8>) -> int {
    spec_u32_from_le_bytes(bytes.subrange(4, 8)) as int
}

/// The payloads of the records at the start of `bytes`, up to the first place
/// where no whole record stands.
pub open spec fn payloads_in(bytes: Seq<u8>) -> Seq<Seq<u8>>
    decreases bytes.len(),
{
    if has_frame(bytes) {
        let n = payload_len(bytes);
        seq![bytes.subrange(8, 8 + n)] + payloads_in(bytes.skip(8 + n))
    } else {
        Seq::empty()
    }
}

/// The byte strings of a sequence of vectors.
pub open spec fn byte_strings(v: Seq<Vec<u8>>) -> Seq<Seq<u8>> {
    v.map_values(|b: Vec<u8>| b@)
}

/// Reading a record back gives its payload and leaves what follows it.
pub proof fn lemma_frame_read(payload: Seq<u8>, rest: Seq<u8>)
    requires
        payload.len() < 0x1_0000_0000,
    ensures
        has_frame(frame_of(payload) + rest),
        payload_len(frame_of(payload) + rest) == payload.len(),
        (frame_of(payload) + rest).subrange(8, 8 + payload.len() as int) == payload,
        (frame_of(payload) + rest).skip(8 + payload.len() as int) == rest,
{
    let s = frame_of(payload) + rest;
    let n = payload.len() as u32;
    lemma_auto_spec_u32_to_from_le_bytes();
    let le = spec_u32_to_le_bytes(n);
    assert(payload.len() % 0x1_0000_0000 == payload.len());
    assert(s.take(4) =~= magic());
    assert(s.subrange(4, 8) =~= le);
    assert(s.subrange(8, 8 + payload.len() as int) =~= payload);
    assert(s.skip(8 + payload.len() as int) =~= rest);
}

/// What was appended to a log is what replay gives back, in order; bytes that
/// follow and hold no whole record are dropped.
pub proof fn replay_returns_what_was_appended(payloads: Seq<Seq<u8>>, tail: Seq<u8>)
    requires
        forall|i: int| 0 <= i < payloads.len() ==> (#[trigger] payloads[i]).len() < 0x1_0000_0000,
        !has_frame(tail),
    ensures
        payloads_in(log_of(payloads) + tail) == payloads,
    decreases payloads.len(),
{
    if payloads.len() == 0 {
        assert(log_of(payloads) + tail =~= tail);
        assert(payloads =~= Seq::empty());
    } else {
        let rest = payloads.skip(1);
        assert forall|i: int| 0 <= i < rest.len() implies (#[trigger] rest[i]).len()
            < 0x1_0000_0000 by {
            assert(rest[i] == payloads[i + 1]);
        }
        replay_returns_what_was_appended(rest, tail);
        lemma_frame_read(payloads[0], log_of(rest) + tail);
        assert(log_of(payloads) + tail =~= frame_of(payloads[0]) + (log_of(rest) + tail));
        assert(payloads =~= seq![payloads[0]] + rest);
    }
}

/// A record that was cut short leaves no whole record: a log that ends in one
/// replays to the records before it.
pub proof fn torn_record_is_dropped(payloads: Seq<Seq<u8>>, last: Seq<u8>, kept: int)
    requires
        forall|i: int| 0 <= i < payloads.len() ==> (#[trigger] payloads[i]).len() < 0x1_0000_0000,
        last.len() < 0x1_0000_0000,
        0 <= kept < frame_of(last).len(),
    ensures
        payloads_in(log_of(payloads) + frame_of(last).take(kept)) == payloads,
{
    let torn = frame_of(last).take(kept);
    if has_frame(torn) {
        lemma_frame_read(last, Seq::empty());
        assert(frame_of(last) + Seq::<u8>::empty() =~= frame_of(last));
        assert(torn.subrange(4, 8) =~= frame_of(last).subrange(4, 8));
    }
    replay_returns_what_was_appended(payloads, torn);
}

/// Appending one record to a log whose records are all whole adds its payload
/// at the end of the replay.
pub proof fn append_extends_replay(payloads: Seq<Seq<u8>>, payload: Seq<u8>)
    requires
        forall|i: int| 0 <= i < payloads.len() ==> (#[trigger] payloads[i]).len() < 0x1_0000_0000,
        payload.len() < 0x1_0000_0000,
    ensures
        payloads_in(log_of(payloads) + frame_of(payload)) == payloads.push(payload),
    decreases payloads.len(),
{
    if payloads.len() == 0 {
        lemma_frame_read(payload, Seq::empty());
        assert(log_of(payloads) + frame_of(payload) =~= frame_of(payload) + Seq::<u8>::empty());
        assert(payloads_in(Seq::<u8>::empty()) =~= Seq::empty());
        assert(payloads.push(payload) =~= seq![payload] + Seq::<Seq<u8>>::empty());
    } else {
        let rest = payloads.skip(1);
        assert forall|i: int| 0 <= i < rest.len() implies (#[trigger] rest[i]).len()
            < 0x1_0000_0000 by {
            assert(rest[i] == payloads[i + 1]);
        }
        append_extends_replay(rest, payload);
        lemma_frame_read(payloads[0], log_of(rest) + frame_of(payload));
        assert(log_of(payloads) + frame_of(payload) =~= frame_of(payloads[0]) + (log_of(rest)
            + frame_of(payload)));
        assert(payloads.push(payload) =~= seq![payloads[0]] + rest.push(payload));
    }
}

fn push_all(out: &mut Vec<u8>, bytes: &[u8])
    ensures
        final(out)@ == old(out)@ + bytes@,
{
    let n: usize = bytes.len();
    let ghost before = out@;
    for i in 0..n
        invariant
            n == bytes@.len(),
            out@ == before + bytes@.take(i as int),
    {
        out.push(bytes[i]);
        proof {
            assert(bytes@.take(i + 1) =~= bytes@.take(i as int).push(bytes@[i as int]));
            assert(out@ =~= before + bytes@.take(i + 1));
        }
    }
    proof {
        assert(bytes@.take(n as int) =~= bytes@);
    }
}

/// The low 32 bits of a length.
fn low_32(n: usize) -> (r: u32)
    ensures
        r == n as int % 0x1_0000_0000,
{
    let wide: u64 = n as u64;
    (wide % 0x1_0000_0000) as u32
}

/// The record that holds `payload`.
pub fn frame(payload: &[u8]) -> (r: Vec<u8>)
    ensures
        r@ == frame_of(payload@),
{
    let mut r: Vec<u8> = vec![87u8, 65u8, 76u8, 49u8];
    proof {
        assert(r@ =~= magic());
    }
    let len: u32 = low_32(payload.len());
    let le: Vec<u8> = u32_to_le_bytes(len);
    push_all(&mut r, le.as_slice());
    push_all(&mut r, payload);
    r
}

/// The name of the log file with number `seq`.
pub open spec fn wal_name_of(seq: nat) -> Seq<char> {
    "wal_"@ + padded(decimal_of(seq), 6) + ".wal"@
}

/// The number of the log file with the given name.
pub open spec fn wal_seq_of(name: Seq<char>) -> Option<nat> {
    match without_prefix(name, "wal_"@) {
        Some(rest) => match without_suffix(rest, ".wal"@) {
            Some(digits) => unsigned_up_to(digits, u32::MAX as nat),
            None => None,
        },
        None => None,
    }
}

/// The highest number among the log files with the given names, 0 when none
/// has a number.
pub open spec fn highest_seq(names: Seq<Seq<char>>) -> nat
    decreases names.len(),
{
    if names.len() == 0 {
        0
    } else {
        let rest = highest_seq(names.drop_last());
        match wal_seq_of(names.last()) {
            Some(n) => if n > rest {
                n
            } else {
                rest
            },
            None => rest,
        }
    }
}

/// The log files among the names, in the order in which they are given.
pub open spec fn log_files_of(names: Seq<Seq<char>>) -> Seq<Seq<char>> {
    names.filter(log_names())
}

/// Whether a name is that of a log file.
pub open spec fn log_names() -> spec_fn(Seq<char>) -> bool {
    |name: Seq<char>| is_log_file(name)
}

/// Whether `files` are the log files among the names, in ascending order.
pub open spec fn is_replay_order(names: Seq<Seq<char>>, files: Seq<Seq<char>>) -> bool {
    &&& ascending(files)
    &&& files.to_multiset() == log_files_of(names).to_multiset()
}

/// Whether a file in the log directory is a log file: its extension is `wal`.
pub open spec fn is_log_file(name: Seq<char>) -> bool {
    name.len() > 4 && ends(name, ".wal"@)
}

proof fn lemma_highest(names: Seq<Seq<char>>, i: int)
    requires
        0 <= i < names.len(),
    ensures
        match wal_seq_of(names[i]) {
            Some(n) => n <= highest_seq(names),
            None => true,
        },
    decreases names.len(),
{
    if i < names.len() - 1 {
        lemma_highest(names.drop_last(), i);
        assert(names.drop_last()[i] == names[i]);
    }
}

/// The number of a log file can be read back from its name.
pub proof fn wal_name_keeps_its_number(seq: nat)
    requires
        seq <= u32::MAX,
    ensures
        wal_seq_of(wal_name_of(seq)) == Some(seq),
        is_log_file(wal_name_of(seq)),
{
    reveal_strlit("wal_");
    reveal_strlit(".wal");
    let digits = padded(decimal_of(seq), 6);
    lemma_decimal(seq);
    lemma_padded(decimal_of(seq), 6);
    let name = wal_name_of(seq);
    assert(name.subrange(0, 4) =~= "wal_"@);
    let rest = name.skip(4);
    assert(rest =~= digits + ".wal"@);
    assert(rest.subrange(rest.len() - 4, rest.len() as int) =~= ".wal"@);
    assert(rest.take(rest.len() - 4) =~= digits);
    assert(crate::text::is_digit(digits[0]));
    assert(unsigned_of(digits) == Some(seq));
    assert(name.subrange(name.len() - 4, name.len() as int) =~= ".wal"@);
}

/// The name for the number after the highest is the name of no file there.
pub proof fn next_wal_name_is_new(names: Seq<Seq<char>>)
    requires
        highest_seq(names) < u32::MAX,
    ensures
        !names.contains(wal_name_of(highest_seq(names) + 1)),
{
    let next = highest_seq(names) + 1;
    wal_name_keeps_its_number(next);
    if names.contains(wal_name_of(next)) {
        let i = choose|i: int| 0 <= i < names.len() && names[i] == wal_name_of(next);
        lemma_highest(names, i);
    }
}

proof fn lemma_text_le_push(x: Seq<char>, y: Seq<char>, a: char, b: char)
    requires
        x.len() == y.len(),
    ensures
        x == y ==> text_le(x.push(a), y.push(b)) == (a <= b),
        x != y ==> text_le(x.push(a), y.push(b)) == text_le(x, y),
    decreases x.len(),
{
    let xa = x.push(a);
    let yb = y.push(b);
    if x.len() == 0 {
        assert(x =~= y);
        reveal_with_fuel(text_le, 2);
    } else {
        assert(xa.skip(1) =~= x.skip(1).push(a));
        assert(yb.skip(1) =~= y.skip(1).push(b));
        lemma_text_le_push(x.skip(1), y.skip(1), a, b);
        if x[0] == y[0] && x.skip(1) == y.skip(1) {
            assert(x =~= seq![x[0]] + x.skip(1));
            assert(y =~= seq![y[0]] + y.skip(1));
        }
    }
}

proof fn lemma_digits_order(x: Seq<char>, y: Seq<char>)
    requires
        x.len() == y.len(),
        forall|i: int| 0 <= i < x.len() ==> crate::text::is_digit(#[trigger] x[i]),
        forall|i: int| 0 <= i < y.len() ==> crate::text::is_digit(#[trigger] y[i]),
    ensures
        text_le(x, y) == (number_of(x) <= number_of(y)),
        number_of(x) == number_of(y) ==> x == y,
    decreases x.len(),
{
    if x.len() > 0 {
        let x0 = x.drop_last();
        let y0 = y.drop_last();
        lemma_digits_order(x0, y0);
        lemma_digits_order(y0, x0);
        assert(x =~= x0.push(x.last()));
        assert(y =~= y0.push(y.last()));
        lemma_text_le_push(x0, y0, x.last(), y.last());
        assert(crate::text::is_digit(x[x.len() - 1]));
        assert(crate::text::is_digit(y[y.len() - 1]));
        if x0 == y0 {
        } else {
            assert(number_of(x0) != number_of(y0));
        }
    } else {
        assert(x =~= y);
    }
}

proof fn lemma_text_le_around(pre: Seq<char>, x: Seq<char>, y: Seq<char>, post: Seq<char>)
    requires
        x.len() == y.len(),
    ensures
        text_le(pre + x + post, pre + y + post) == text_le(x, y),
    decreases pre.len() + x.len(),
{
    let s = pre + x + post;
    let t = pre + y + post;
    if pre.len() > 0 {
        assert(s.skip(1) =~= pre.skip(1) + x + post);
        assert(t.skip(1) =~= pre.skip(1) + y + post);
        lemma_text_le_around(pre.skip(1), x, y, post);
    } else if x.len() > 0 {
        assert(s[0] == x[0] && t[0] == y[0]);
        if x[0] == y[0] {
            assert(s.skip(1) =~= pre + x.skip(1) + post);
            assert(t.skip(1) =~= pre + y.skip(1) + post);
            lemma_text_le_around(pre, x.skip(1), y.skip(1), post);
        }
    } else {
        assert(s =~= t);
        lemma_text_le_reflexive(s);
    }
}

proof fn lemma_text_le_reflexive(s: Seq<char>)
    ensures
        text_le(s, s),
    decreases s.len(),
{
    if s.len() > 0 {
        lemma_text_le_reflexive(s.skip(1));
    }
}

proof fn lemma_decimal_len(n: nat, k: nat)
    requires
        n < vstd::arithmetic::power::pow(10, k),
        k > 0,
    ensures
        decimal_of(n).len() <= k,
    decreases k,
{
    if n >= 10 {
        if k == 1 {
            assert(vstd::arithmetic::power::pow(10, 1) == 10) by {
                vstd::arithmetic::power::lemma_pow1(10);
            }
        } else {
            let q = (k - 1) as nat;
            assert(vstd::arithmetic::power::pow(10, k) == 10 * vstd::arithmetic::power::pow(10, q))
                by {
                reveal(vstd::arithmetic::power::pow);
            }
            lemma_decimal_len(n / 10, q);
        }
    }
}

/// Below one million the names of log files sort as their numbers do, so
/// replay in name order is replay in the order of writing.
pub proof fn wal_names_sort_by_number(a: nat, b: nat)
    requires
        a < 1_000_000,
        b < 1_000_000,
    ensures
        text_le(wal_name_of(a), wal_name_of(b)) == (a <= b),
        wal_name_of(a) == wal_name_of(b) ==> a == b,
{
    assert(vstd::arithmetic::power::pow(10, 6) == 1_000_000) by {
        reveal_with_fuel(vstd::arithmetic::power::pow, 7);
    }
    lemma_decimal_len(a, 6);
    lemma_decimal_len(b, 6);
    lemma_decimal(a);
    lemma_decimal(b);
    lemma_padded(decimal_of(a), 6);
    lemma_padded(decimal_of(b), 6);
    let x = padded(decimal_of(a), 6);
    let y = padded(decimal_of(b), 6);
    lemma_digits_order(x, y);
    lemma_text_le_around("wal_"@, x, y, ".wal"@);
    wal_name_keeps_its_number(a);
    wal_name_keeps_its_number(b);
}

/// The name of the log file with number `seq`.
pub fn wal_name(seq: u32) -> (r: String)
    ensures
        r@ == wal_name_of(seq as nat),
{
    let mut r = String::from_str("wal_");
    let digits = decimal_padded(seq as u64, 6);
    let middle = string_of(digits.as_slice());
    r.append(middle.as_str());
    r.append(".wal");
    r
}

/// The number in a log file's name.
pub fn wal_seq(name: &str) -> (r: Option<u32>)
    ensures
        match r {
            Some(n) => wal_seq_of(name@) == Some(n as nat),
            None => wal_seq_of(name@) is None,
        },
{
    let chars = chars_of(name);
    match strip_prefix(chars.as_slice(), "wal_") {
        Some(rest) => match strip_suffix(rest, ".wal") {
            Some(digits) => match parse_unsigned(digits, u32::MAX as u64) {
                Some(n) => Some(n as u32),
                None => None,
            },
            None => None,
        },
        None => None,
    }
}

/// The highest number among the log files with the given names.
pub fn highest_wal_seq(names: &Vec<String>) -> (r: u32)
    ensures
        r == highest_seq(texts(names@)),
{
    let n: usize = names.len();
    let mut r: u32 = 0;
    for i in 0..n
        invariant
            n == names@.len(),
            r == highest_seq(texts(names@).take(i as int)),
    {
        proof {
            let t = texts(names@);
            assert(t.take(i + 1).drop_last() =~= t.take(i as int));
            assert(t.take(i + 1).last() == names@[i as int]@);
        }
        match wal_seq(names[i].as_str()) {
            Some(k) => {
                if k > r {
                    r = k;
                }
            },
            None => {},
        }
    }
    proof {
        assert(texts(names@).take(n as int) =~= texts(names@));
    }
    r
}

/// The number for the next log file in a directory that holds `names`.
pub fn next_wal_seq(names: &Vec<String>) -> (r: u32)
    requires
        highest_seq(texts(names@)) < u32::MAX,
    ensures
        r == highest_seq(texts(names@)) + 1,
{
    highest_wal_seq(names) + 1
}

/// Whether a file with this name is a log file.
pub fn log_file(name: &str) -> (r: bool)
    ensures
        r == is_log_file(name@),
{
    let chars = chars_of(name);
    chars.len() > 4 && ends_with(chars.as_slice(), ".wal")
}

/// The log files among `names`, in the order in which they are replayed.
pub fn wal_files(names: &Vec<String>) -> (r: Vec<String>)
    ensures
        is_replay_order(texts(names@), texts(r@)),
{
    let n: usize = names.len();
    let mut kept: Vec<String> = Vec::new();
    let ghost pred = log_names();
    let ghost files = log_files_of(texts(names@));
    proof {
        reveal(Seq::filter);
        assert(texts(kept@) =~= texts(names@).take(0).filter(pred));
    }
    for i in 0..n
        invariant
            n == names@.len(),
            texts(names@).filter(pred) == files,
            forall|x: Seq<char>| #[trigger] pred(x) == is_log_file(x),
            texts(kept@) == texts(names@).take(i as int).filter(pred),
    {
        proof {
            let t = texts(names@);
            assert(t.take(i + 1).drop_last() =~= t.take(i as int));
            assert(t.take(i + 1).last() == names@[i as int]@);
            reveal(Seq::filter);
        }
        if log_file(names[i].as_str()) {
            let name = names[i].clone();
            proof {
                lemma_texts_push(kept@, name);
            }
            kept.push(name);
        }
    }
    proof {
        assert(texts(names@).take(n as int) =~= texts(names@));
    }
    sort_names(&kept)
}

/// The log file with the greatest name.
pub fn latest_wal_file(names: &Vec<String>) -> (r: Option<String>)
    ensures
        match r {
            Some(name) => {
                &&& texts(names@).contains(name@)
                &&& is_log_file(name@)
                &&& forall|i: int|
                    0 <= i < names@.len() && is_log_file(#[trigger] names@[i]@) ==> text_le(
                        names@[i]@,
                        name@,
                    )
            },
            None => forall|i: int| 0 <= i < names@.len() ==> !is_log_file(#[trigger] names@[i]@),
        },
{
    let files = wal_files(names);
    let ghost kept = log_files_of(texts(names@));
    proof {
        broadcast use vstd::seq_lib::group_to_multiset_ensures;
        broadcast use vstd::seq_lib::group_filter_ensures;

        assert forall|i: int| 0 <= i < names@.len() && is_log_file(
            #[trigger] names@[i]@,
        ) implies texts(files@).contains(names@[i]@) by {
            assert(texts(names@)[i] == names@[i]@);
            assert(kept.contains(names@[i]@));
            assert(kept.to_multiset().count(names@[i]@) > 0);
        }
        assert forall|i: int| 0 <= i < files@.len() implies texts(names@).contains(
            #[trigger] files@[i]@,
        ) && is_log_file(files@[i]@) by {
            assert(texts(files@)[i] == files@[i]@);
            assert(texts(files@).contains(files@[i]@));
            assert(texts(files@).to_multiset().count(files@[i]@) > 0);
            assert(kept.contains(files@[i]@));
            lemma_filter_within(texts(names@), log_names(), files@[i]@);
        }
    }
    if files.len() == 0 {
        return None;
    }
    let last: usize = files.len() - 1;
    let name = files[last].clone();
    proof {
        assert forall|i: int| 0 <= i < names@.len() && is_log_file(
            #[trigger] names@[i]@,
        ) implies text_le(names@[i]@, name@) by {
            let t = texts(files@);
            let k = choose|k: int| 0 <= k < t.len() && t[k] == names@[i]@;
            if k < last {
                assert(text_le(t[k], t[last as int]));
            } else {
                lemma_text_le_reflexive(name@);
            }
        }
    }
    Some(name)
}

/// What to write for one record.
pub struct WalAppend {
    /// The file to create first, when the record starts a new one.
    pub create: Option<String>,
    /// The bytes of the record.
    pub record: Vec<u8>,
}

/// How the writing of one record ended.
#[derive(Clone, Copy, Debug, PartialEq, Eq, Structural)]
pub enum WalOutcome {
    /// The new file could not be created.
    CreateFailed,
    /// The file is open, and writing the record failed.
    WriteFailed,
    /// The record is written.
    Written,
}

/// What a writer knows of the file that it appends to.
pub struct Wal {
    open: bool,
    size: u128,
}

impl Wal {
    /// Whether a file is open.
    pub closed spec fn is_open(&self) -> bool {
        self.open
    }

    /// The bytes written to the open file.
    pub closed spec fn written(&self) -> nat {
        self.size as nat
    }

    /// Whether the next record starts a new file: none is open, or the open
    /// one is full.
    pub open spec fn must_roll(&self) -> bool {
        !self.is_open() || self.written() >= MAX_WAL_SIZE
    }

    /// A writer with no file open.
    pub fn new() -> (r: Self)
        ensures
            !r.is_open(),
            r.written() == 0,
    {
        Wal { open: false, size: 0 }
    }

    /// Whether the next record starts a new file.
    pub fn needs_new_file(&self) -> (r: bool)
        ensures
            r == self.must_roll(),
    {
        !self.open || self.size >= MAX_WAL_SIZE as u128
    }

    /// What to write for `payload` in a directory that holds `names`.
    pub fn append(&self, payload: &[u8], names: &Vec<String>) -> (r: WalAppend)
        requires
            self.must_roll() ==> highest_seq(texts(names@)) < u32::MAX,
        ensures
            r.record@ == frame_of(payload@),
            match r.create {
                Some(name) => self.must_roll() && name@ == wal_name_of(
                    highest_seq(texts(names@)) + 1,
                ),
                None => !self.must_roll(),
            },
    {
        let create: Option<String> = if self.needs_new_file() {
            Some(wal_name(next_wal_seq(names)))
        } else {
            None
        };
        WalAppend { create, record: frame(payload) }
    }

    /// The payloads of the whole records at the start of a log file.
    pub fn replay(bytes: &[u8]) -> (r: Vec<Vec<u8>>)
        ensures
            byte_strings(r@) == payloads_in(bytes@),
    {
        let n: usize = bytes.len();
        let mut r: Vec<Vec<u8>> = Vec::new();
        let mut at: usize = 0;
        proof {
            assert(bytes@.skip(0) =~= bytes@);
            assert(byte_strings(r@) + payloads_in(bytes@.skip(0)) =~= payloads_in(bytes@));
        }
        loop
            invariant
                n == bytes@.len(),
                at <= n,
                byte_strings(r@) + payloads_in(bytes@.skip(at as int)) == payloads_in(bytes@),
            decreases n - at,
        {
            let ghost rest = bytes@.skip(at as int);
            if n - at < 8 {
                proof {
                    assert(byte_strings(r@) + payloads_in(rest) =~= byte_strings(r@));
                }
                return r;
            }
            proof {
                assert(rest.subrange(4, 8) =~= bytes@.subrange(at + 4, at + 8));
            }
            if bytes[at] != 87 || bytes[at + 1] != 65 || bytes[at + 2] != 76 || bytes[at + 3] != 49 {
                proof {
                    assert(rest.take(4)[0] == bytes@[at as int]);
                    assert(rest.take(4)[1] == bytes@[at + 1]);
                    assert(rest.take(4)[2] == bytes@[at + 2]);
                    assert(rest.take(4)[3] == bytes@[at + 3]);
                    assert(!has_frame(rest));
                    assert(byte_strings(r@) + payloads_in(rest) =~= byte_strings(r@));
                }
                return r;
            }
            proof {
                assert(rest.take(4) =~= magic());
            }
            let len: u32 = u32_from_le_bytes(slice_subrange(bytes, at + 4, at + 8));
            if ((n - at - 8) as u64) < len as u64 {
                proof {
                    assert(byte_strings(r@) + payloads_in(rest) =~= byte_strings(r@));
                }
                return r;
            }
            let size: usize = len as usize;
            let mut payload: Vec<u8> = Vec::new();
            push_all(&mut payload, slice_subrange(bytes, at + 8, at + 8 + size));
            let ghost before = r@;
            r.push(payload);
            proof {
                assert(payload@ =~= rest.subrange(8, 8 + size));
                assert(rest.skip(8 + size) =~= bytes@.skip(at + 8 + size));
                assert(byte_strings(r@) =~= byte_strings(before).push(payload@));
                assert(byte_strings(r@) + payloads_in(bytes@.skip(at + 8 + size)) =~= byte_strings(
                    before,
                ) + payloads_in(rest));
            }
            at = at + 8 + size;
        }
    }

    /// Takes note of how a planned write ended.
    pub fn finish(&mut self, plan: &WalAppend, outcome: WalOutcome)
        requires
            plan.create is None ==> !old(self).must_roll(),
        ensures
            match outcome {
                WalOutcome::CreateFailed => !final(self).is_open() && final(self).written() == 0,
                WalOutcome::WriteFailed => final(self).is_open() && final(self).written() == (
                if plan.create is Some {
                    0
                } else {
                    old(self).written()
                }),
                WalOutcome::Written => final(self).is_open() && final(self).written() == (
                if plan.create is Some {
                    0
                } else {
                    old(self).written()
                }) + plan.record@.len(),
            },
    {
        let start: u128 = match &plan.create {
            Some(_) => 0,
            None => self.size,
        };
        match outcome {
            WalOutcome::CreateFailed => {
                self.open = false;
                self.size = 0;
            },
            WalOutcome::WriteFailed => {
                self.open = true;
                self.size = start;
            },
            WalOutcome::Written => {
                self.open = true;
                let len: usize = plan.record.len();
                self.size = start + len as u128;
            },
        }
    }
}

/// The payloads in the given log files, one file after the other.
pub open spec fn payloads_in_all(files: Seq<Seq<u8>>) -> Seq<Seq<u8>>
    decreases files.len(),
{
    if files.len() == 0 {
        Seq::empty()
    } else {
        payloads_in_all(files.drop_last()) + payloads_in(files.last())
    }
}

/// The payloads in the given log files, one file after the other.
pub fn replay_files(files: &Vec<Vec<u8>>) -> (r: Vec<Vec<u8>>)
    ensures
        byte_strings(r@) == payloads_in_all(byte_strings(files@)),
{
    let n: usize = files.len();
    let ghost all = byte_strings(files@);
    let mut r: Vec<Vec<u8>> = Vec::new();
    proof {
        assert(byte_strings(r@) =~= payloads_in_all(all.take(0)));
    }
    for i in 0..n
        invariant
            n == files@.len(),
            all == byte_strings(files@),
            byte_strings(r@) == payloads_in_all(all.take(i as int)),
    {
        let ghost before = r@;
        let mut more = Wal::replay(files[i].as_slice());
        let ghost added = more@;
        r.append(&mut more);
        proof {
            assert(byte_strings(r@) =~= byte_strings(before) + byte_strings(added));
            assert(all.take(i + 1).drop_last() =~= all.take(i as int));
            assert(all.take(i + 1).last() == files@[i as int]@);
        }
    }
    proof {
        assert(all.take(n as int) =~= all);
    }
    r
}

/// Whether a directory holds the log file with a number, with the given records.
pub open spec fn holds_file(
    dir: Map<Seq<char>, Seq<u8>>,
    number: nat,
    records: Seq<Seq<u8>>,
) -> bool {
    dir.contains_key(wal_name_of(number)) && dir[wal_name_of(number)] == log_of(records)
}

/// Whether a directory holds a log in files numbered from `first` on, the file
/// at each place with the given records, and no other log file.
pub open spec fn holds_log(
    dir: Map<Seq<char>, Seq<u8>>,
    first: nat,
    chunks: Seq<Seq<Seq<u8>>>,
) -> bool {
    &&& first + chunks.len() <= 1_000_000
    &&& chunks.len() == 0 ==> first == 1
    &&& forall|i: int|
        0 <= i < chunks.len() ==> holds_file(dir, (first + i) as nat, #[trigger] chunks[i])
    &&& forall|i: int, j: int|
        0 <= i < chunks.len() && 0 <= j < chunks[i].len() ==> (#[trigger] chunks[i][j]).len()
            < 0x1_0000_0000
    &&& forall|name: Seq<char>|
        dir.contains_key(name) && #[trigger] is_log_file(name) ==> exists|i: int|
            0 <= i < chunks.len() && name == #[trigger] wal_name_of((first + i) as nat)
}

/// Whether `names` are the names of the files in a directory, each once.
pub open spec fn is_listing(dir: Map<Seq<char>, Seq<u8>>, names: Seq<Seq<char>>) -> bool {
    &&& names.no_duplicates()
    &&& forall|name: Seq<char>| #[trigger] names.contains(name) <==> dir.contains_key(name)
}

/// The contents of files of a directory.
pub open spec fn contents_of(
    dir: Map<Seq<char>, Seq<u8>>,
    files: Seq<Seq<char>>,
) -> Seq<Seq<u8>> {
    Seq::new(files.len(), |i: int| dir[files[i]])
}

/// All records of a log, one file after the other.
pub open spec fn records_of(chunks: Seq<Seq<Seq<u8>>>) -> Seq<Seq<u8>>
    decreases chunks.len(),
{
    if chunks.len() == 0 {
        Seq::empty()
    } else {
        records_of(chunks.drop_last()) + chunks.last()
    }
}

proof fn lemma_filter_no_duplicates(s: Seq<Seq<char>>, pred: spec_fn(Seq<char>) -> bool)
    requires
        s.no_duplicates(),
    ensures
        s.filter(pred).no_duplicates(),
    decreases s.len(),
{
    reveal(Seq::filter);
    if s.len() > 0 {
        let rest = s.drop_last();
        lemma_filter_no_duplicates(rest, pred);
        let kept = rest.filter(pred);
        if pred(s.last()) {
            let all = kept.push(s.last());
            assert forall|i: int, j: int|
                0 <= i < all.len() && 0 <= j < all.len() && i != j implies all[i] != all[j] by {
                if i == kept.len() || j == kept.len() {
                    let k = if i == kept.len() {
                        j
                    } else {
                        i
                    };
                    assert(kept.contains(kept[k]));
                    lemma_filter_within(rest, pred, kept[k]);
                    let m = rest.index_of(kept[k]);
                    assert(s[m] != s[s.len() - 1]);
                }
            }
        }
    }
}

proof fn lemma_rising(k: Seq<int>)
    requires
        forall|i: int| 0 <= i < k.len() ==> 0 <= #[trigger] k[i] < k.len(),
        forall|i: int, j: int| 0 <= i < j < k.len() ==> #[trigger] k[i] < #[trigger] k[j],
    ensures
        forall|i: int| 0 <= i < k.len() ==> #[trigger] k[i] == i,
{
    assert forall|i: int| 0 <= i < k.len() implies #[trigger] k[i] == i by {
        lemma_at_least(k, i);
        lemma_at_most(k, i);
    }
}

proof fn lemma_at_least(k: Seq<int>, i: int)
    requires
        0 <= i < k.len(),
        forall|i: int| 0 <= i < k.len() ==> 0 <= #[trigger] k[i] < k.len(),
        forall|i: int, j: int| 0 <= i < j < k.len() ==> #[trigger] k[i] < #[trigger] k[j],
    ensures
        k[i] >= i,
    decreases i,
{
    if i > 0 {
        lemma_at_least(k, i - 1);
        assert(k[i - 1] < k[i]);
    }
}

proof fn lemma_at_most(k: Seq<int>, i: int)
    requires
        0 <= i < k.len(),
        forall|i: int| 0 <= i < k.len() ==> 0 <= #[trigger] k[i] < k.len(),
        forall|i: int, j: int| 0 <= i < j < k.len() ==> #[trigger] k[i] < #[trigger] k[j],
    ensures
        k[i] <= i,
    decreases k.len() - i,
{
    if i < k.len() - 1 {
        lemma_at_most(k, i + 1);
        assert(k[i] < k[i + 1]);
    }
}

/// The files of a log are replayed in the order of their numbers.
pub proof fn files_are_replayed_by_number(
    dir: Map<Seq<char>, Seq<u8>>,
    first: nat,
    chunks: Seq<Seq<Seq<u8>>>,
    names: Seq<Seq<char>>,
    files: Seq<Seq<char>>,
)
    requires
        holds_log(dir, first, chunks),
        is_listing(dir, names),
        is_replay_order(names, files),
    ensures
        files == Seq::new(chunks.len(), |i: int| wal_name_of((first + i) as nat)),
{
    broadcast use vstd::seq_lib::group_to_multiset_ensures;
    broadcast use vstd::seq_lib::group_filter_ensures;

    let n = chunks.len();
    let wanted = Seq::new(n, |i: int| wal_name_of((first + i) as nat));
    let kept = log_files_of(names);
    lemma_filter_no_duplicates(names, log_names());
    kept.lemma_multiset_has_no_duplicates();
    files.lemma_multiset_has_no_duplicates_conv();
    assert forall|i: int, j: int| 0 <= i < n && 0 <= j < n && i != j implies wanted[i]
        != wanted[j] by {
        wal_names_sort_by_number((first + i) as nat, (first + j) as nat);
    }
    assert forall|x: Seq<char>| files.contains(x) <==> wanted.contains(x) by {
        assert(files.contains(x) <==> files.to_multiset().count(x) > 0);
        assert(kept.contains(x) <==> kept.to_multiset().count(x) > 0);
        if kept.contains(x) {
            lemma_filter_within(names, log_names(), x);
            assert(dir.contains_key(x) && is_log_file(x));
            let i = choose|i: int|
                0 <= i < chunks.len() && x == #[trigger] wal_name_of((first + i) as nat);
            assert(wanted[i] == x);
        }
        if wanted.contains(x) {
            let i = wanted.index_of(x);
            assert(chunks[i] == chunks[i]);
            assert(dir.contains_key(x));
            wal_name_keeps_its_number((first + i) as nat);
            assert(names.contains(x));
            let m = names.index_of(x);
            assert(log_names()(names[m]));
            assert(kept.contains(names[m]));
        }
    }
    assert(files.to_set() =~= wanted.to_set()) by {
        assert forall|x: Seq<char>| files.to_set().contains(x) <==> wanted.to_set().contains(x) by {
            assert(files.contains(x) <==> wanted.contains(x));
        }
    }
    files.unique_seq_to_set();
    wanted.unique_seq_to_set();
    assert(files.len() == n);
    let k = Seq::new(n, |i: int| wanted.index_of(files[i]));
    assert forall|i: int| 0 <= i < n implies 0 <= #[trigger] k[i] < n && wanted[k[i]]
        == files[i] by {
        assert(files.contains(files[i]));
        assert(wanted.contains(files[i]));
    }
    assert forall|i: int, j: int| 0 <= i < j < n implies #[trigger] k[i] < #[trigger] k[j] by {
        assert(text_le(files[i], files[j]));
        wal_names_sort_by_number((first + k[i]) as nat, (first + k[j]) as nat);
        assert(files[i] != files[j]);
    }
    lemma_rising(k);
    assert forall|i: int| 0 <= i < n implies files[i] == wanted[i] by {
        assert(k[i] == i);
    }
    assert(files =~= wanted);
}

proof fn lemma_replay_chunks(
    dir: Map<Seq<char>, Seq<u8>>,
    first: nat,
    chunks: Seq<Seq<Seq<u8>>>,
    m: int,
)
    requires
        holds_log(dir, first, chunks),
        0 <= m <= chunks.len(),
    ensures
        payloads_in_all(
            contents_of(dir, Seq::new(m as nat, |i: int| wal_name_of((first + i) as nat))),
        ) == records_of(chunks.take(m)),
    decreases m,
{
    let files = Seq::new(m as nat, |i: int| wal_name_of((first + i) as nat));
    let contents = contents_of(dir, files);
    if m > 0 {
        let before = Seq::new((m - 1) as nat, |i: int| wal_name_of((first + i) as nat));
        lemma_replay_chunks(dir, first, chunks, m - 1);
        assert(contents.drop_last() =~= contents_of(dir, before));
        assert(contents.last() == log_of(chunks[m - 1]));
        let none = Seq::<u8>::empty();
        assert(!has_frame(none));
        assert forall|j: int| 0 <= j < chunks[m - 1].len() implies (
        #[trigger] chunks[m - 1][j]).len() < 0x1_0000_0000 by {
        }
        replay_returns_what_was_appended(chunks[m - 1], none);
        assert(log_of(chunks[m - 1]) + none =~= log_of(chunks[m - 1]));
        assert(chunks.take(m).drop_last() =~= chunks.take(m - 1));
        assert(chunks.take(m).last() == chunks[m - 1]);
    } else {
        assert(payloads_in_all(contents) =~= records_of(chunks.take(m)));
    }
}

/// What was appended to a log over several files is what replay of its files
/// gives back, in order.
pub proof fn replay_returns_the_whole_log(
    dir: Map<Seq<char>, Seq<u8>>,
    first: nat,
    chunks: Seq<Seq<Seq<u8>>>,
    names: Seq<Seq<char>>,
    files: Seq<Seq<char>>,
)
    requires
        holds_log(dir, first, chunks),
        is_listing(dir, names),
        is_replay_order(names, files),
    ensures
        payloads_in_all(contents_of(dir, files)) == records_of(chunks),
{
    files_are_replayed_by_number(dir, first, chunks, names, files);
    lemma_replay_chunks(dir, first, chunks, chunks.len() as int);
    assert(chunks.take(chunks.len() as int) =~= chunks);
}

proof fn lemma_highest_is_one(names: Seq<Seq<char>>)
    ensures
        highest_seq(names) > 0 ==> exists|i: int|
            0 <= i < names.len() && wal_seq_of(#[trigger] names[i]) == Some(highest_seq(names)),
    decreases names.len(),
{
    if names.len() > 0 {
        let rest = names.drop_last();
        lemma_highest_is_one(rest);
        if highest_seq(names) > 0 {
            if highest_seq(names) == highest_seq(rest) {
                let i = choose|i: int|
                    0 <= i < rest.len() && wal_seq_of(#[trigger] rest[i]) == Some(
                        highest_seq(rest),
                    );
                assert(names[i] == rest[i]);
            } else {
                assert(wal_seq_of(names[names.len() - 1]) == Some(highest_seq(names)));
            }
        }
    }
}

proof fn lemma_numbered_is_log_file(name: Seq<char>)
    requires
        wal_seq_of(name) is Some,
    ensures
        is_log_file(name),
{
    reveal_strlit("wal_");
    reveal_strlit(".wal");
    let rest = name.skip(4);
    assert(rest.subrange(rest.len() - 4, rest.len() as int) =~= name.subrange(
        name.len() - 4,
        name.len() as int,
    ));
}

/// The file after those of a log is the one with the next number.
pub proof fn next_file_is_next_in_log(
    dir: Map<Seq<char>, Seq<u8>>,
    first: nat,
    chunks: Seq<Seq<Seq<u8>>>,
    names: Seq<Seq<char>>,
)
    requires
        holds_log(dir, first, chunks),
        is_listing(dir, names),
        first >= 1,
    ensures
        highest_seq(names) + 1 == first + chunks.len(),
{
    let n = chunks.len();
    lemma_highest_is_one(names);
    if highest_seq(names) > 0 {
        let i = choose|i: int|
            0 <= i < names.len() && wal_seq_of(#[trigger] names[i]) == Some(highest_seq(names));
        lemma_numbered_is_log_file(names[i]);
        assert(names.contains(names[i]));
        let j = choose|j: int|
            0 <= j < n && names[i] == #[trigger] wal_name_of((first + j) as nat);
        wal_name_keeps_its_number((first + j) as nat);
    }
    if n > 0 {
        let last = wal_name_of((first + n - 1) as nat);
        assert(chunks[n - 1] == chunks[n - 1]);
        assert(dir.contains_key(wal_name_of((first + (n - 1)) as nat)));
        assert(names.contains(last));
        let m = names.index_of(last);
        wal_name_keeps_its_number((first + n - 1) as nat);
        lemma_highest(names, m);
    }
}

/// The directory after a record was written as planned: at the end of the
/// current file, or in a new one.
pub open spec fn dir_with(
    dir: Map<Seq<char>, Seq<u8>>,
    current: Seq<char>,
    create: Option<Seq<char>>,
    record: Seq<u8>,
) -> Map<Seq<char>, Seq<u8>> {
    match create {
        Some(name) => dir.insert(name, record),
        None => dir.insert(current, dir[current] + record),
    }
}

/// The records of a log after one more, in a new file or in the last one.
pub open spec fn chunks_with(
    chunks: Seq<Seq<Seq<u8>>>,
    payload: Seq<u8>,
    new_file: bool,
) -> Seq<Seq<Seq<u8>>> {
    if new_file {
        chunks.push(seq![payload])
    } else {
        chunks.drop_last().push(chunks.last().push(payload))
    }
}

proof fn lemma_log_push(payloads: Seq<Seq<u8>>, payload: Seq<u8>)
    ensures
        log_of(payloads.push(payload)) == log_of(payloads) + frame_of(payload),
    decreases payloads.len(),
{
    if payloads.len() == 0 {
        assert(payloads.push(payload).skip(1) =~= Seq::empty());
        assert(log_of(payloads.push(payload).skip(1)) =~= Seq::empty());
        assert(log_of(payloads) =~= Seq::empty());
        assert(log_of(payloads.push(payload)) =~= log_of(payloads) + frame_of(payload));
    } else {
        assert(payloads.push(payload).skip(1) =~= payloads.skip(1).push(payload));
        lemma_log_push(payloads.skip(1), payload);
        assert(log_of(payloads.push(payload)) =~= log_of(payloads) + frame_of(payload));
    }
}

/// A record that is written as planned, in a new file where the plan asks for
/// one, extends the log by its payload: the directory again holds a log, and
/// replay gives what it gave before with the payload at the end.
pub proof fn append_extends_the_whole_log(
    dir: Map<Seq<char>, Seq<u8>>,
    first: nat,
    chunks: Seq<Seq<Seq<u8>>>,
    names: Seq<Seq<char>>,
    payload: Seq<u8>,
    new_file: bool,
)
    requires
        holds_log(dir, first, chunks),
        is_listing(dir, names),
        first >= 1,
        first + chunks.len() < 1_000_000,
        payload.len() < 0x1_0000_0000,
        new_file || chunks.len() > 0,
    ensures
        holds_log(
            dir_with(
                dir,
                wal_name_of((first + chunks.len() - 1) as nat),
                if new_file {
                    Some(wal_name_of(highest_seq(names) + 1))
                } else {
                    None
                },
                frame_of(payload),
            ),
            first,
            chunks_with(chunks, payload, new_file),
        ),
        records_of(chunks_with(chunks, payload, new_file)) == records_of(chunks).push(payload),
{
    let n = chunks.len();
    let after = chunks_with(chunks, payload, new_file);
    let last = wal_name_of((first + n - 1) as nat);
    let created = if new_file {
        Some(wal_name_of(highest_seq(names) + 1))
    } else {
        None
    };
    let dir2 = dir_with(dir, last, created, frame_of(payload));
    next_file_is_next_in_log(dir, first, chunks, names);
    let m = (after.len() - 1) as int;
    let written = wal_name_of((first + m) as nat);
    if new_file {
        assert(log_of(seq![payload]) =~= frame_of(payload)) by {
            lemma_log_push(Seq::empty(), payload);
            assert(Seq::<Seq<u8>>::empty().push(payload) =~= seq![payload]);
            assert(log_of(Seq::empty()) + frame_of(payload) =~= frame_of(payload));
        }
    } else {
        assert(chunks[n - 1] == chunks.last());
        assert(dir[wal_name_of((first + (n - 1)) as nat)] == log_of(chunks[n - 1]));
        lemma_log_push(chunks.last(), payload);
    }
    assert(dir2.contains_key(written) && dir2[written] == log_of(after[m]));
    assert forall|i: int| 0 <= i < after.len() implies holds_file(
        dir2,
        (first + i) as nat,
        #[trigger] after[i],
    ) by {
        if i < m {
            assert(after[i] == chunks[i]);
            wal_names_sort_by_number((first + i) as nat, (first + m) as nat);
        }
    }
    assert forall|i: int, j: int| 0 <= i < after.len() && 0 <= j < after[i].len() implies (
    #[trigger] after[i][j]).len() < 0x1_0000_0000 by {
        if i < m {
            assert(after[i] == chunks[i]);
            assert(chunks[i][j].len() < 0x1_0000_0000);
        } else if !new_file && j < chunks.last().len() {
            assert(after[i][j] == chunks[n - 1][j]);
            assert(chunks[n - 1][j].len() < 0x1_0000_0000);
        }
    }
    assert forall|name: Seq<char>| dir2.contains_key(name) && #[trigger] is_log_file(
        name,
    ) implies exists|i: int|
        0 <= i < after.len() && name == #[trigger] wal_name_of((first + i) as nat) by {
        if name == written {
            assert(name == wal_name_of((first + m) as nat));
        } else {
            let i = choose|i: int|
                0 <= i < chunks.len() && name == #[trigger] wal_name_of((first + i) as nat);
            assert(0 <= i < after.len());
        }
    }
    if new_file {
        assert(after.drop_last() =~= chunks);
        assert(records_of(after) =~= records_of(chunks).push(payload));
    } else {
        assert(after.drop_last() =~= chunks.drop_last());
        assert(records_of(after) =~= records_of(chunks).push(payload));
    }
}

} // verus!
