//! What settings and the embedding service promise.

use crate::common::encoding::{decoded, decoded_bytes, hex_of, hex_pair_of};
use crate::config::{configured_by, number_or, signed_or, Config, ConfigVars};
use crate::embed::{embed_url_of, fails, numbers_of, vector_in, CircuitBreaker, EmbedReply};
use crate::l2::finite_vector;
use crate::text::{i64_of, unsigned_up_to};
use vstd::prelude::*;
use vstd::utf8::{encode_utf8, valid_utf8};

verus! {

/// A variable that holds a number gives it; one that is not set, or holds
/// something else, leaves the default.
pub proof fn variables_hold_numbers(var: Option<String>, default: nat, max: nat, signed: int)
    ensures
        var is None ==> number_or(var, default, max) == default && signed_or(var, signed) == signed,
        var is Some && unsigned_up_to(var->0@, max) is Some ==> number_or(var, default, max)
            == unsigned_up_to(var->0@, max)->0,
        var is Some && unsigned_up_to(var->0@, max) is None ==> number_or(var, default, max)
            == default,
        var is Some && i64_of(var->0@) is Some ==> signed_or(var, signed) == i64_of(var->0@)->0,
        var is Some && i64_of(var->0@) is None ==> signed_or(var, signed) == signed,
{
}

/// What is configured where a variable is not set.
pub proof fn unset_variables_have_defaults(c: Config, vars: ConfigVars)
    requires
        configured_by(c, vars),
    ensures
        vars.l0_max_entries is None ==> c.l0_capacity == 10_000,
        vars.l1_path is None ==> c.l1_path@ == "/tmp/memory_v2_l1"@,
        vars.l1_max_entries is None ==> c.l1_max_entries == 50_000,
        vars.l1_max_age_secs is None ==> c.l1_ttl_secs == 7 * 24 * 3600,
        vars.l1_gc_interval_secs is None ==> c.l1_gc_interval_secs == 3600,
        vars.l2_max_entries is None ==> c.l2_max_entries == 100_000,
        vars.l2_pending_batch is None ==> c.l2_pending_batch == 500,
        vars.l2_sync_interval_secs is None ==> c.l2_sync_interval_secs == 300,
        vars.l2_embed_batch_size is None ==> c.l2_embed_batch_size == 50,
        vars.l2_vector_persist_path is None ==> c.l2_vector_persist_path@
            == "/tmp/memory_v2_l2_vectors.json"@,
        vars.l3_archive_dir is None ==> c.l3_archive_dir@ == "memory-archive"@,
        vars.l3_archive_after_days is None ==> c.l3_archive_after_days == 30,
        vars.l3_gc_interval_secs is None ==> c.l3_gc_interval_secs == 24 * 3600,
        vars.api_key is None ==> c.api_key is None,
        vars.listen is None ==> c.listen@ == "127.0.0.1:7891"@,
        vars.gemini_key is None ==> c.gemini_key is None,
        vars.workspace is None ==> c.workspace_path@ == "."@,
{
}

/// What is configured where a variable is set: each variable sets the one value
/// that it is for.
pub proof fn set_variables_are_taken_over(c: Config, vars: ConfigVars)
    requires
        configured_by(c, vars),
    ensures
        vars.l0_max_entries is Some && unsigned_up_to(vars.l0_max_entries->0@, usize::MAX as nat)
            is Some ==> c.l0_capacity == unsigned_up_to(
            vars.l0_max_entries->0@,
            usize::MAX as nat,
        )->0,
        vars.l1_max_entries is Some && unsigned_up_to(vars.l1_max_entries->0@, usize::MAX as nat)
            is Some ==> c.l1_max_entries == unsigned_up_to(
            vars.l1_max_entries->0@,
            usize::MAX as nat,
        )->0,
        vars.l2_max_entries is Some && unsigned_up_to(vars.l2_max_entries->0@, usize::MAX as nat)
            is Some ==> c.l2_max_entries == unsigned_up_to(
            vars.l2_max_entries->0@,
            usize::MAX as nat,
        )->0,
        vars.l2_pending_batch is Some && unsigned_up_to(
            vars.l2_pending_batch->0@,
            usize::MAX as nat,
        ) is Some ==> c.l2_pending_batch == unsigned_up_to(
            vars.l2_pending_batch->0@,
            usize::MAX as nat,
        )->0,
        vars.l2_embed_batch_size is Some && unsigned_up_to(
            vars.l2_embed_batch_size->0@,
            usize::MAX as nat,
        ) is Some ==> c.l2_embed_batch_size == unsigned_up_to(
            vars.l2_embed_batch_size->0@,
            usize::MAX as nat,
        )->0,
        vars.l1_gc_interval_secs is Some && unsigned_up_to(
            vars.l1_gc_interval_secs->0@,
            u64::MAX as nat,
        ) is Some ==> c.l1_gc_interval_secs == unsigned_up_to(
            vars.l1_gc_interval_secs->0@,
            u64::MAX as nat,
        )->0,
        vars.l2_sync_interval_secs is Some && unsigned_up_to(
            vars.l2_sync_interval_secs->0@,
            u64::MAX as nat,
        ) is Some ==> c.l2_sync_interval_secs == unsigned_up_to(
            vars.l2_sync_interval_secs->0@,
            u64::MAX as nat,
        )->0,
        vars.l3_gc_interval_secs is Some && unsigned_up_to(
            vars.l3_gc_interval_secs->0@,
            u64::MAX as nat,
        ) is Some ==> c.l3_gc_interval_secs == unsigned_up_to(
            vars.l3_gc_interval_secs->0@,
            u64::MAX as nat,
        )->0,
        vars.l1_max_age_secs is Some && i64_of(vars.l1_max_age_secs->0@) is Some ==> c.l1_ttl_secs
            == i64_of(vars.l1_max_age_secs->0@)->0,
        vars.l3_archive_after_days is Some && i64_of(vars.l3_archive_after_days->0@) is Some
            ==> c.l3_archive_after_days == i64_of(vars.l3_archive_after_days->0@)->0,
        vars.l1_path is Some ==> c.l1_path@ == vars.l1_path->0@,
        vars.l2_vector_persist_path is Some ==> c.l2_vector_persist_path@
            == vars.l2_vector_persist_path->0@,
        vars.l3_archive_dir is Some ==> c.l3_archive_dir@ == vars.l3_archive_dir->0@,
        vars.listen is Some ==> c.listen@ == vars.listen->0@,
        vars.workspace is Some ==> c.workspace_path@ == vars.workspace->0@,
        vars.api_key is Some ==> c.api_key is Some && c.api_key->0@ == vars.api_key->0@,
        vars.gemini_key is Some ==> c.gemini_key is Some && c.gemini_key->0@
            == vars.gemini_key->0@,
{
}

/// The components of a response are the items of its list that are numbers, in
/// order.
pub proof fn components_are_the_numbers_of_the_list(items: Seq<Option<u32>>)
    ensures
        numbers_of(items) == items.filter(|x: Option<u32>| x is Some).map_values(
            |x: Option<u32>| x->0,
        ),
    decreases items.len(),
{
    reveal(Seq::filter);
    let is_number = |x: Option<u32>| x is Some;
    let number = |x: Option<u32>| x->0;
    if items.len() > 0 {
        components_are_the_numbers_of_the_list(items.drop_last());
    }
    assert(numbers_of(items) =~= items.filter(is_number).map_values(number));
}

/// A reply brings a vector exactly where it is a response with components all of
/// which are finite, and brings these.
pub proof fn replies_bring_finite_vectors(reply: EmbedReply)
    ensures
        vector_in(reply) is Some <==> reply is Response && reply->Response_0 is Some
            && finite_vector(reply->Response_0->0@),
        vector_in(reply) is Some ==> vector_in(reply) == Some(reply->Response_0->0@),
{
}

/// A failure is counted, and the fifth in a row or a later one leaves the service
/// alone from then on; it may be asked again after a minute.
pub proof fn five_failures_leave_the_service_alone(
    before: CircuitBreaker,
    after: CircuitBreaker,
    at: u64,
    later: u64,
)
    requires
        fails(before, after, at),
        before.failures() < u32::MAX,
        at <= later,
    ensures
        after.failures() == before.failures() + 1,
        before.failures() >= 4 ==> after.open_since() == Some(at) && (after.may_ask(later) <==> later
            - at >= 60_000),
        before.failures() < 4 ==> after.open_since() == before.open_since(),
        before.failures() < 4 && before.open_since() is None ==> after.may_ask(later),
{
}

/// A request goes to the embedding model, with the key at the end of the address.
pub proof fn requests_go_to_the_model(api_key: Seq<char>)
    ensures
        embed_url_of(api_key)
            == "https://generativelanguage.googleapis.com/v1beta/models/gemini-embedding-001:embedContent?key="@
            + api_key,
{
}

/// Hexadecimal digits are the decimal ones and the first six letters, large or
/// small; two of them make a byte, the first counting sixteen times.
pub proof fn hexadecimal_digits_make_bytes(a: u8, b: u8)
    ensures
        48 <= a <= 57 ==> hex_of(a) == Some((a - 48) as u8),
        65 <= a <= 70 ==> hex_of(a) == Some((a - 65 + 10) as u8),
        97 <= a <= 102 ==> hex_of(a) == Some((a - 97 + 10) as u8),
        hex_of(a) is Some ==> (48 <= a <= 57) || (65 <= a <= 70) || (97 <= a <= 102),
        hex_pair_of(a, b) is Some <==> hex_of(a) is Some && hex_of(b) is Some,
        hex_pair_of(a, b) is Some ==> hex_pair_of(a, b)->0 == 16 * hex_of(a)->0 + hex_of(b)->0,
{
}

/// In a query `+` stands for a space and `%` with two hexadecimal digits for a
/// byte; any other byte, and a `%` without such digits, stands for itself.
pub proof fn queries_are_decoded_in_turn(a: u8, b: u8, c: u8, rest: Seq<u8>)
    ensures
        decoded_bytes(Seq::empty()) == Seq::<u8>::empty(),
        a != 37 && a != 43 ==> decoded_bytes(seq![a] + rest) == seq![a] + decoded_bytes(rest),
        decoded_bytes(seq![43u8] + rest) == seq![32u8] + decoded_bytes(rest),
        hex_pair_of(b, c) is Some ==> decoded_bytes(seq![37u8, b, c] + rest) == seq![
            hex_pair_of(b, c)->0,
        ] + decoded_bytes(rest),
        hex_pair_of(b, c) is None ==> decoded_bytes(seq![37u8, b, c] + rest) == seq![37u8]
            + decoded_bytes(seq![b, c] + rest),
        decoded_bytes(seq![37u8]) == seq![37u8],
        decoded_bytes(seq![37u8, b]) == seq![37u8] + decoded_bytes(seq![b]),
{
    assert((seq![a] + rest).skip(1) =~= rest);
    assert((seq![43u8] + rest).skip(1) =~= rest);
    let s = seq![37u8, b, c] + rest;
    assert(s.skip(3) =~= rest);
    assert(s.skip(1) =~= seq![b, c] + rest);
    assert(s[0] == 37 && s[1] == b && s[2] == c);
    assert(seq![37u8].skip(1) =~= Seq::<u8>::empty());
    assert(decoded_bytes(seq![37u8]) =~= seq![37u8]) by {
        assert(decoded_bytes(seq![37u8].skip(1)) =~= Seq::<u8>::empty());
    }
    assert(seq![37u8, b].skip(1) =~= seq![b]);
}

/// A query is the text of its decoded bytes; it stays as it is where they are no
/// text.
pub proof fn queries_that_are_no_text_stay(s: Seq<char>)
    ensures
        valid_utf8(decoded_bytes(encode_utf8(s))) ==> encode_utf8(decoded(s)) == decoded_bytes(
            encode_utf8(s),
        ),
        !valid_utf8(decoded_bytes(encode_utf8(s))) ==> decoded(s) == s,
{
    broadcast use vstd::utf8::decode_utf8_encode_utf8;

}

} // verus!
