//! What the interface answers.

use crate::api::{
    agent_of, expiry_of, health_reply, is_answer, is_described, is_request, issue_texts, may_enter,
    may_see, metric, metrics_of, preview_of, seen_by, text_items, ApiFailure, RecallParams,
    RememberBody,
};
use crate::clock::{representable, rfc3339_read, MomentModel};
use crate::common::{Entry, EntryModel, Importance, Layer, MemoryStats, RecallRequest, ResultModel};
use crate::errors::MemoryError;
use crate::l1::key_problem;
use crate::laws::text::part_occurs;
use crate::text::{
    decimal_of, first_bytes, join_of, lowercase, occurs, split_of, texts, unsigned_up_to, width_of,
};
use vstd::prelude::*;
use vstd::utf8::encode_utf8;

verus! {

/// Without a configured key every request is answered; with one, those that bring
/// the same text and no other.
pub proof fn requests_bring_the_configured_key(key: Seq<char>, given: Option<Seq<char>>)
    ensures
        may_enter(None, given),
        may_enter(Some(key), given) <==> given is Some && given->0 == key,
{
}

/// An agent may see an entry exactly where it is public or its own.
pub proof fn private_entries_are_for_their_agent(agent: Seq<char>, entry: EntryModel)
    ensures
        may_see(agent, entry) <==> entry.layer == Layer::Public || entry.source == agent,
{
}

/// Of a list of results an agent sees those whose entries are public or its own,
/// in order.
pub proof fn agents_see_what_they_may(
    results: Seq<ResultModel>,
    agent: Seq<char>,
    result: ResultModel,
)
    ensures
        results.filter(seen_by(agent)) == results.filter(
            |r: ResultModel| r.entry.layer == Layer::Public || r.entry.source == agent,
        ),
        results.filter(seen_by(agent)).contains(result) <==> results.contains(result) && (
        result.entry.layer == Layer::Public || result.entry.source == agent),
    decreases results.len(),
{
    reveal(Seq::filter);
    let seen = |r: ResultModel| r.entry.layer == Layer::Public || r.entry.source == agent;
    if results.len() > 0 {
        let rest = results.drop_last();
        let last = results[results.len() - 1];
        agents_see_what_they_may(rest, agent, result);
        let kept = results.filter(seen_by(agent));
        let before = rest.filter(seen_by(agent));
        assert(seen_by(agent)(last) == seen(last));
        if before.contains(result) {
            let i = before.index_of(result);
            assert(kept[i] == result);
        }
        if rest.contains(result) {
            let i = rest.index_of(result);
            assert(results[i] == result);
        }
        if last == result && seen(last) {
            assert(kept[kept.len() - 1] == result);
        }
        if last == result {
            assert(results[results.len() - 1] == result);
        }
        if kept.contains(result) && result != last {
            let i = kept.index_of(result);
            assert(i < before.len());
            assert(before[i] == result);
        }
        if results.contains(result) && result != last {
            let i = results.index_of(result);
            assert(rest[i] == result);
        }
    }
    assert(results.filter(seen_by(agent)) =~= results.filter(seen));
}

/// A request that does not say comes from the agent of the interface.
pub proof fn senders_are_named(sender: Option<String>)
    ensures
        sender is Some ==> agent_of(sender) == sender->0@,
        sender is None ==> agent_of(sender) == "http-api"@,
{
}

/// What the parameters of a recall ask for: ten results where no limit can be
/// read, by meaning only where that is `true`, tags between commas, and any layer
/// where none or `all` is named.
pub proof fn parameters_make_the_request(req: RecallRequest, params: RecallParams)
    requires
        is_request(req, params),
    ensures
        params.query is Some ==> req.query@ == params.query->0@,
        params.query is None ==> req.query@.len() == 0,
        req.keys is None,
        params.agent_id is Some ==> req.agent_id is Some && req.agent_id->0@
            == params.agent_id->0@,
        params.agent_id is None ==> req.agent_id is None,
        params.tags is Some ==> req.tags is Some && texts(req.tags->0@) == split_of(
            params.tags->0@,
            ',',
        ),
        params.tags is None ==> req.tags is None,
        params.limit is None ==> req.limit_of() == 10,
        params.limit is Some && unsigned_up_to(params.limit->0@, usize::MAX as nat) is Some
            ==> req.limit_of() == unsigned_up_to(params.limit->0@, usize::MAX as nat)->0,
        params.limit is Some && unsigned_up_to(params.limit->0@, usize::MAX as nat) is None
            ==> req.limit_of() == 10,
        params.layer is None ==> req.layer is None,
        params.layer is Some && lowercase(params.layer->0@) == "all"@ ==> req.layer is None,
        params.layer is Some && lowercase(params.layer->0@) == "public"@ ==> req.layer == Some(
            Layer::Public,
        ),
        params.layer is Some && lowercase(params.layer->0@) != "all"@ && lowercase(
            params.layer->0@,
        ) != "public"@ ==> req.layer == Some(Layer::Private),
        req.semantic <==> params.semantic is Some && params.semantic->0@ == "true"@,
{
    reveal_strlit("all");
    reveal_strlit("public");
    assert("all"@.len() == 3 && "public"@.len() == 6);
}

/// The tags of a body are the items of its list that are texts, in order.
pub proof fn tags_are_the_texts_of_the_list(items: Seq<Option<String>>)
    ensures
        text_items(items) == items.filter(|s: Option<String>| s is Some).map_values(
            |s: Option<String>| s->0@,
        ),
    decreases items.len(),
{
    reveal(Seq::filter);
    let is_text = |s: Option<String>| s is Some;
    let text = |s: Option<String>| s->0@;
    if items.len() > 0 {
        tags_are_the_texts_of_the_list(items.drop_last());
    }
    assert(text_items(items) =~= items.filter(is_text).map_values(text));
}

/// The entry that a body describes has its key and value; it is of normal
/// importance, private and without tags where the body does not say.
pub proof fn bodies_make_their_entry(
    entry: EntryModel,
    body: RememberBody,
    expires_at: Option<MomentModel>,
)
    requires
        is_described(entry, body, expires_at),
    ensures
        entry.key == body.key->0@ && entry.value == body.value->0@,
        body.importance is None ==> entry.importance == Importance::Normal,
        body.importance is Some ==> entry.importance == Importance::named(body.importance->0@),
        body.layer is None ==> entry.layer == Layer::Private,
        body.layer is Some ==> entry.layer == Layer::named(body.layer->0@),
        body.tags is None ==> entry.tags.len() == 0,
        body.tags is Some ==> entry.tags == body.tags->0@.filter(
            |s: Option<String>| s is Some,
        ).map_values(|s: Option<String>| s->0@),
        body.sender is Some ==> entry.source == body.sender->0@,
        body.sender is None ==> entry.source == "http-api"@,
        entry.created_at == entry.last_accessed,
        entry.expires_at == expires_at,
{
    if body.tags is Some {
        tags_are_the_texts_of_the_list(body.tags->0@);
    }
}

/// A body is answered with its entry exactly where it has a key of at most 512
/// bytes without a null character, and a value of at most a megabyte. A missing
/// key is told before a missing value, both before a key that is not valid, and
/// that before a value that is too large.
pub proof fn bodies_are_answered(
    r: Result<Entry, ApiFailure>,
    body: RememberBody,
    expires_at: Option<MomentModel>,
)
    requires
        is_answer(r, body, expires_at),
    ensures
        r is Ok <==> {
            &&& body.key is Some && body.value is Some
            &&& encode_utf8(body.key->0@).len() <= 512 && !body.key->0@.contains('\0')
            &&& encode_utf8(body.value->0@).len() <= 1024 * 1024
        },
        body.key is None ==> r is Err && r->Err_0 is MissingField && r->Err_0->MissingField_0@
            == "key"@,
        body.key is Some && body.value is None ==> r is Err && r->Err_0 is MissingField
            && r->Err_0->MissingField_0@ == "value"@,
        body.key is Some && body.value is Some && (encode_utf8(body.key->0@).len() > 512
            || body.key->0@.contains('\0')) ==> r is Err && r->Err_0 is Refused
            && r->Err_0->Refused_0 is InvalidKey,
        body.key is Some && body.value is Some && encode_utf8(body.key->0@).len() <= 512
            && !body.key->0@.contains('\0') && encode_utf8(body.value->0@).len() > 1024 * 1024
            ==> r is Err && r->Err_0 is Refused && r->Err_0->Refused_0 is EntryTooLarge,
        r is Ok ==> is_described(r->Ok_0@, body, expires_at),
{
}

/// The time of expiry of a body is the date and time that it gives, where a date
/// and time can hold it; any other text counts as none.
pub proof fn times_of_expiry_are_read(text: Option<String>)
    ensures
        text is None ==> expiry_of(text) is None,
        text is Some ==> match rfc3339_read(text->0@) {
            Some((secs, nanos)) => {
                let at = MomentModel { secs: secs as int, nanos: nanos as int };
                &&& at.is_valid() ==> expiry_of(text) == Some(at)
                &&& !at.is_valid() ==> expiry_of(text) is None
            },
            None => expiry_of(text) is None,
        },
{
}

/// A date and time can hold the seconds of the years from -262143 to 262142; the
/// nanoseconds are those of one second, or of a leap second at the end of a
/// minute.
pub proof fn dates_and_times_have_a_range(at: MomentModel, millis: int)
    ensures
        at.is_valid() <==> {
            &&& -8_334_601_228_800 <= at.secs <= 8_210_266_876_799
            &&& 0 <= at.nanos < 1_000_000_000 || (1_000_000_000 <= at.nanos < 2_000_000_000
                && at.secs % 60 == 59)
        },
        representable(millis) <==> -8_334_601_228_800_000 <= millis <= 8_210_266_876_799_999,
        representable(millis) ==> MomentModel::of_millis(millis).is_valid()
            && MomentModel::of_millis(millis).millis() == millis,
        at.days_before(1).secs == at.secs - 86_400 && at.days_before(1).nanos == at.nanos,
{
}

/// The status of each failure.
pub proof fn failures_have_their_status(failure: ApiFailure)
    ensures
        failure.status_of() == 400 <==> failure is MissingField || failure is MissingParam || (
        failure is Refused && (failure->Refused_0 is InvalidRequest
            || failure->Refused_0 is InvalidKey || failure->Refused_0 is EntryTooLarge)),
        failure.status_of() == 401 <==> failure is Refused && (failure->Refused_0 is ApiKeyMissing
            || failure->Refused_0 is ApiKeyInvalid || failure->Refused_0 is Unauthorized),
        failure.status_of() == 404 <==> failure is NotFound || (failure is Refused
            && failure->Refused_0 is L1NotFound),
        failure.status_of() == 429 <==> failure is Refused && failure->Refused_0 is RateLimited,
        failure.status_of() == 503 <==> failure is Refused && (failure->Refused_0 is L2Rebuilding
            || failure->Refused_0 is ServiceUnavailable),
        failure is WriteFailed || failure is DeleteFailed ==> failure.status_of() == 500,
        failure.status_of() == 400 || failure.status_of() == 401 || failure.status_of() == 404
            || failure.status_of() == 429 || failure.status_of() == 500 || failure.status_of()
            == 503,
{
}

/// The layers are well exactly where none has an issue; otherwise the reply names
/// each layer with an issue and what is wrong with it.
pub proof fn issues_are_told(health: Seq<(Seq<char>, Option<Seq<char>>)>)
    ensures
        (forall|i: int| 0 <= i < health.len() ==> (#[trigger] health[i]).1 is None)
            ==> health_reply(health) == (200u16, "OK"@),
        (exists|i: int| 0 <= i < health.len() && (#[trigger] health[i]).1 is Some) ==> health_reply(
            health,
        ) == (
            503u16,
            "DEGRADED: "@ + join_of(
                health.filter(|h: (Seq<char>, Option<Seq<char>>)| h.1 is Some).map_values(
                    |h: (Seq<char>, Option<Seq<char>>)| h.0 + ": "@ + h.1->0,
                ),
                ", "@,
            ),
        ),
{
    lemma_issue_texts(health);
}

proof fn lemma_issue_texts(health: Seq<(Seq<char>, Option<Seq<char>>)>)
    ensures
        issue_texts(health) == health.filter(
            |h: (Seq<char>, Option<Seq<char>>)| h.1 is Some,
        ).map_values(|h: (Seq<char>, Option<Seq<char>>)| h.0 + ": "@ + h.1->0),
        issue_texts(health).len() == 0 <==> forall|i: int|
            0 <= i < health.len() ==> (#[trigger] health[i]).1 is None,
    decreases health.len(),
{
    reveal(Seq::filter);
    let ill = |h: (Seq<char>, Option<Seq<char>>)| h.1 is Some;
    let told = |h: (Seq<char>, Option<Seq<char>>)| h.0 + ": "@ + h.1->0;
    if health.len() > 0 {
        let rest = health.drop_last();
        let n = health.len() - 1;
        lemma_issue_texts(rest);
        if issue_texts(rest).len() == 0 {
            if health[n].1 is None {
                assert forall|i: int| 0 <= i < health.len() implies (
                #[trigger] health[i]).1 is None by {
                    if i < n {
                        assert(rest[i].1 is None);
                    }
                }
            }
        } else {
            let i = choose|i: int| 0 <= i < rest.len() && !((#[trigger] rest[i]).1 is None);
            assert(health[i].1 is Some);
        }
    }
    assert(issue_texts(health) =~= health.filter(ill).map_values(told));
}

/// The metrics give each count on a line of its own, under its name.
pub proof fn metrics_give_every_count(stats: MemoryStats)
    ensures
        occurs(
            metrics_of(stats),
            "memory_l0_entries_total"@ + " "@ + decimal_of(stats.l0_entries as nat) + "\n"@,
        ),
        occurs(
            metrics_of(stats),
            "memory_l1_entries_total"@ + " "@ + decimal_of(stats.l1_entries as nat) + "\n"@,
        ),
        occurs(
            metrics_of(stats),
            "memory_l2_entries_total"@ + " "@ + decimal_of(stats.l2_entries as nat) + "\n"@,
        ),
        occurs(
            metrics_of(stats),
            "memory_l2_vectors_cached_total"@ + " "@ + decimal_of(stats.l2_vectors_cached as nat)
                + "\n"@,
        ),
        occurs(
            metrics_of(stats),
            "memory_l2_pending_vectors_total"@ + " "@ + decimal_of(
                stats.l2_pending_vectors as nat,
            ) + "\n"@,
        ),
        occurs(
            metrics_of(stats),
            "memory_l3_archived_files_total"@ + " "@ + decimal_of(stats.l3_archived_files as nat)
                + "\n"@,
        ),
{
    let head =
        "# HELP memory_entries_total Memory entries per layer\n# TYPE memory_entries_total gauge\n"@;
    let a = metric("memory_l0_entries_total"@, stats.l0_entries as nat);
    let b = metric("memory_l1_entries_total"@, stats.l1_entries as nat);
    let c = metric("memory_l2_entries_total"@, stats.l2_entries as nat);
    let d = metric("memory_l2_vectors_cached_total"@, stats.l2_vectors_cached as nat);
    let e = metric("memory_l2_pending_vectors_total"@, stats.l2_pending_vectors as nat);
    let f = metric("memory_l3_archived_files_total"@, stats.l3_archived_files as nat);
    let none = Seq::<char>::empty();
    let all = metrics_of(stats);
    assert(all =~= head + a + (b + c + d + e + f));
    part_occurs(head, a, b + c + d + e + f);
    assert(all =~= (head + a) + b + (c + d + e + f));
    part_occurs(head + a, b, c + d + e + f);
    assert(all =~= (head + a + b) + c + (d + e + f));
    part_occurs(head + a + b, c, d + e + f);
    assert(all =~= (head + a + b + c) + d + (e + f));
    part_occurs(head + a + b + c, d, e + f);
    assert(all =~= (head + a + b + c + d) + e + f);
    part_occurs(head + a + b + c + d, e, f);
    assert(all =~= (head + a + b + c + d + e) + f + none);
    part_occurs(head + a + b + c + d + e, f, none);
}

proof fn lemma_width(s: Seq<char>)
    requires
        s.len() > 0,
    ensures
        encode_utf8(s).len() == width_of(s[0]) + encode_utf8(s.skip(1)).len(),
{
    assert(s.drop_first() =~= s.skip(1));
    vstd::utf8::char_is_scalar(s[0]);
    let first = vstd::utf8::encode_scalar(s[0] as u32);
    assert(encode_utf8(s) == first + encode_utf8(s.drop_first()));
    assert(first.len() == width_of(s[0]));
}

/// The first bytes of a text are the characters before the place at which so many
/// bytes are full; there are none where no character ends at that place.
pub proof fn first_bytes_are_whole_characters(s: Seq<char>, n: int)
    requires
        n >= 0,
    ensures
        first_bytes(s, n) is Some ==> exists|k: int|
            0 <= k <= s.len() && first_bytes(s, n) == Some(#[trigger] s.take(k)) && encode_utf8(
                s.take(k),
            ).len() == n,
        forall|k: int|
            0 <= k <= s.len() && encode_utf8(#[trigger] s.take(k)).len() == n ==> first_bytes(s, n)
                == Some(s.take(k)),
    decreases s.len(),
{
    assert(s.take(0) =~= Seq::<char>::empty());
    assert(encode_utf8(s.take(0)).len() == 0);
    if s.len() > 0 {
        let rest = s.skip(1);
        let w = width_of(s[0]);
        assert forall|k: int| 0 < k <= s.len() implies encode_utf8(#[trigger] s.take(k)).len() == w
            + encode_utf8(rest.take(k - 1)).len() by {
            lemma_width(s.take(k));
            assert(s.take(k).skip(1) =~= rest.take(k - 1));
        }
        if n > 0 && n >= w {
            first_bytes_are_whole_characters(rest, n - w);
            if first_bytes(s, n) is Some {
                let k = choose|k: int|
                    0 <= k <= rest.len() && first_bytes(rest, n - w) == Some(#[trigger] rest.take(k))
                        && encode_utf8(rest.take(k)).len() == n - w;
                assert(s.take(k + 1) =~= seq![s[0]] + rest.take(k));
                assert(encode_utf8(s.take(k + 1)).len() == n);
            }
            assert forall|k: int|
                0 <= k <= s.len() && encode_utf8(#[trigger] s.take(k)).len()
                    == n implies first_bytes(s, n) == Some(s.take(k)) by {
                if k > 0 {
                    assert(encode_utf8(rest.take(k - 1)).len() == n - w);
                    assert(s.take(k) =~= seq![s[0]] + rest.take(k - 1));
                }
            }
        }
    }
}

/// The preview of a text is the text where it has fewer than a hundred bytes;
/// else it is its characters up to the hundredth byte, where one ends there.
pub proof fn previews_are_the_first_hundred_bytes(text: Seq<char>, k: int)
    requires
        0 <= k <= text.len(),
    ensures
        encode_utf8(text).len() < 100 ==> preview_of(text) == Some(text),
        encode_utf8(text).len() >= 100 && encode_utf8(text.take(k)).len() == 100 ==> preview_of(
            text,
        ) == Some(text.take(k)),
        encode_utf8(text).len() >= 100 && preview_of(text) is Some ==> encode_utf8(
            preview_of(text)->0,
        ).len() == 100,
{
    first_bytes_are_whole_characters(text, 100);
}

/// The name of each failure, and what it is about.
pub proof fn failures_have_names_and_details(failure: ApiFailure)
    ensures
        failure is MissingField ==> failure.code_of() == "missing_field"@ && failure.detail_of()
            == ("message"@, failure->MissingField_0@ + " is required"@),
        failure is MissingParam ==> failure.code_of() == "missing_param"@ && failure.detail_of()
            == ("param"@, failure->MissingParam_0@),
        failure is NotFound ==> failure.code_of() == "not_found"@ && failure.detail_of() == (
            "key"@,
            failure->NotFound_0@,
        ),
        failure is WriteFailed ==> failure.code_of() == "write_failed"@ && failure.detail_of() == (
            "message"@,
            failure->WriteFailed_0@,
        ),
        failure is DeleteFailed ==> failure.code_of() == "delete_failed"@ && failure.detail_of()
            == ("message"@, failure->DeleteFailed_0@),
        failure is Refused ==> failure.detail_of() == (
            "message"@,
            failure->Refused_0.message_of(),
        ),
        failure is Refused && failure->Refused_0 is InvalidKey ==> failure.code_of()
            == "invalid_key"@,
        failure is Refused && failure->Refused_0 is EntryTooLarge ==> failure.code_of()
            == "entry_too_large"@,
        failure is Refused && (failure->Refused_0 is ApiKeyMissing
            || failure->Refused_0 is ApiKeyInvalid || failure->Refused_0 is Unauthorized)
            ==> failure.code_of() == "unauthorized"@,
{
}

/// The message of an error says what failed, and then the reason that was given.
pub proof fn messages_give_the_reason(error: MemoryError)
    ensures
        match error {
            MemoryError::L1WriteFailed(s) => error.message_of() == "L1 write failed: "@ + s@,
            MemoryError::L1NotFound(s) => error.message_of() == "L1 entry not found: "@ + s@,
            MemoryError::L2WriteFailed(s) => error.message_of() == "L2 write failed: "@ + s@,
            MemoryError::L2EmbedFailed(s) => error.message_of() == "L2 embedding failed: "@ + s@,
            MemoryError::L2InvalidVector(s) => error.message_of()
                == "L2 invalid vector (NaN/Inf): "@ + s@,
            MemoryError::L3ArchiveFailed(s) => error.message_of() == "L3 archive failed: "@ + s@,
            MemoryError::L3ImportFailed(s) => error.message_of() == "L3 import failed: "@ + s@,
            MemoryError::InvalidRequest(s) => error.message_of() == "invalid request: "@ + s@,
            MemoryError::InvalidKey(s) => error.message_of() == "invalid key: "@ + s@,
            MemoryError::Unauthorized(s) => error.message_of() == "unauthorized: "@ + s@,
            MemoryError::RateLimited(s) => error.message_of() == "rate limited: "@ + s@,
            MemoryError::ServiceUnavailable(s) => error.message_of() == "service unavailable: "@
                + s@,
            MemoryError::Internal(s) => error.message_of() == "internal error: "@ + s@,
            MemoryError::EntryTooLarge { key, size, max } => error.message_of()
                == "entry too large: "@ + decimal_of(size as nat) + " bytes (max "@ + decimal_of(
                max as nat,
            ) + "): "@ + key@,
            MemoryError::L2Rebuilding => error.message_of()
                == "L2 is rebuilding, temporarily unavailable"@,
            MemoryError::ApiKeyMissing => error.message_of() == "API key missing"@,
            MemoryError::ApiKeyInvalid => error.message_of() == "API key invalid"@,
        },
{
}

/// What is wrong with a key that is not taken.
pub proof fn problems_of_keys_are_named(key: Seq<char>)
    ensures
        encode_utf8(key).len() > 512 ==> key_problem(key) == Some("key 超过 512 字节"@),
        encode_utf8(key).len() <= 512 && key.contains('\0') ==> key_problem(key) == Some(
            "key 包含 null byte"@,
        ),
{
}

} // verus!
