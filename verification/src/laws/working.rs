//! What working memory, and requests to it, promise.

use crate::clock::MomentModel;
use crate::common::{has_expired, EntryModel, Importance, Layer, RecallRequest, ResultModel};
use crate::l0::{relevance, starts_with_any, words_asked, words_found, Working};
use crate::laws::search::stands_in;
use crate::laws::text::parts_stand_at_places;
use crate::sort::Ranked;
use crate::text::{first_of, join_of, lowercase, occurs, starts, words_of};
use vstd::prelude::*;

verus! {

/// An importance has a level, a name and a name with a capital, and is known by
/// its name in letters of any case; any other name is normal.
pub proof fn importances_have_names(name: Seq<char>)
    ensures
        Importance::named(name) == Importance::Critical <==> lowercase(name) == "critical"@,
        Importance::named(name) == Importance::High <==> lowercase(name) == "high"@,
        Importance::named(name) == Importance::Low <==> lowercase(name) == "low"@,
        Importance::Critical.name_of() == "critical"@,
        Importance::High.name_of() == "high"@,
        Importance::Normal.name_of() == "normal"@,
        Importance::Low.name_of() == "low"@,
        Importance::Critical.title_of() == "Critical"@,
        Importance::High.title_of() == "High"@,
        Importance::Normal.title_of() == "Normal"@,
        Importance::Low.title_of() == "Low"@,
{
    reveal_strlit("critical");
    reveal_strlit("high");
    reveal_strlit("low");
    assert("critical"@.len() == 8 && "high"@.len() == 4 && "low"@.len() == 3);
}

/// A more important entry has a higher level, from one to four; a number that is
/// no level is normal.
pub proof fn importances_have_levels(a: Importance, b: Importance, level: int)
    ensures
        Importance::Low.level_of() == 1,
        Importance::Normal.level_of() == 2,
        Importance::High.level_of() == 3,
        Importance::Critical.level_of() == 4,
        a.level_of() == b.level_of() ==> a == b,
        1 <= level <= 4 ==> Importance::with_level(level).level_of() == level,
        !(1 <= level <= 4) ==> Importance::with_level(level) == Importance::Normal,
{
}

/// A layer is public by its name alone, in letters of any case.
pub proof fn layers_have_names(name: Seq<char>)
    ensures
        Layer::named(name) == Layer::Public <==> lowercase(name) == "public"@,
        Layer::Public.prefix_of() == "public"@,
        Layer::Private.prefix_of() == "private"@,
{
}

/// An entry has expired exactly where it has a time of expiry that lies before
/// the given point in time.
pub proof fn entries_expire_at_their_time(entry: EntryModel, at: MomentModel)
    ensures
        entry.expires_at is None ==> !has_expired(entry, at),
        entry.expires_at is Some ==> (has_expired(entry, at) <==> entry.expires_at->0.secs < at.secs
            || (entry.expires_at->0.secs == at.secs && entry.expires_at->0.nanos < at.nanos)),
{
}

/// A request admits an entry exactly where it is of the agent, of the layer and
/// has every tag that the request names; what it does not name is not asked.
pub proof fn filters_are_all_passed(req: RecallRequest, entry: EntryModel)
    ensures
        req.admits(entry) <==> {
            &&& req.agent_id is Some ==> entry.source == req.agent_id->0@
            &&& req.layer is Some ==> entry.layer == req.layer->0
            &&& req.tags is Some ==> forall|i: int|
                0 <= i < req.tags->0@.len() ==> entry.tags.contains((#[trigger] req.tags->0@[i])@)
        },
        req.limit_of() == (if req.limit is Some {
            req.limit->0
        } else {
            10
        }),
{
}

/// The keys of a request that come first are those that it names.
pub proof fn keys_come_first_as_named(req: RecallRequest, key: Seq<char>)
    ensures
        req.keys_of().contains(key) <==> req.keys is Some && exists|i: int|
            0 <= i < req.keys->0@.len() && (#[trigger] req.keys->0@[i])@ == key,
{
    if req.keys_of().contains(key) {
        let i = req.keys_of().index_of(key);
        assert(req.keys->0@[i]@ == key);
    }
    if req.keys is Some && exists|i: int|
        0 <= i < req.keys->0@.len() && (#[trigger] req.keys->0@[i])@ == key {
        let i = choose|i: int|
            0 <= i < req.keys->0@.len() && (#[trigger] req.keys->0@[i])@ == key;
        assert(req.keys_of()[i] == key);
    }
}

proof fn lemma_words_found(tokens: Seq<Seq<char>>, text: Seq<char>)
    ensures
        words_found(tokens, text) <= tokens.len(),
        words_found(tokens, text) == 0 <==> !exists|i: int|
            0 <= i < tokens.len() && stands_in(text, #[trigger] tokens[i]),
        words_found(tokens, text) == tokens.len() <==> forall|i: int|
            0 <= i < tokens.len() ==> stands_in(text, #[trigger] tokens[i]),
    decreases tokens.len(),
{
    if tokens.len() > 0 {
        let rest = tokens.drop_last();
        let n = tokens.len() - 1;
        lemma_words_found(rest, text);
        parts_stand_at_places(text, tokens[n]);
        assert(occurs(text, tokens[n]) <==> stands_in(text, tokens[n]));
        if exists|i: int| 0 <= i < tokens.len() && stands_in(text, #[trigger] tokens[i]) {
            let i = choose|i: int| 0 <= i < tokens.len() && stands_in(text, #[trigger] tokens[i]);
            if i < n {
                assert(stands_in(text, rest[i]));
            }
        }
        if words_found(tokens, text) > 0 {
            if words_found(rest, text) > 0 {
                let i = choose|i: int| 0 <= i < rest.len() && stands_in(text, #[trigger] rest[i]);
                assert(stands_in(text, tokens[i]));
            } else {
                assert(stands_in(text, tokens[n]));
            }
        }
        if words_found(tokens, text) == tokens.len() {
            assert forall|i: int| 0 <= i < tokens.len() implies stands_in(
                text,
                #[trigger] tokens[i],
            ) by {
                if i < n {
                    assert(stands_in(text, rest[i]));
                }
            }
        }
        if forall|i: int| 0 <= i < tokens.len() ==> stands_in(text, #[trigger] tokens[i]) {
            assert forall|i: int| 0 <= i < rest.len() implies stands_in(
                text,
                #[trigger] rest[i],
            ) by {
                assert(stands_in(text, tokens[i]));
            }
            assert(stands_in(text, tokens[n]));
        }
    }
}

/// A text scores one where it is the words of the query with single spaces
/// between; else 0.8 where each word stands in it; else 0.6 where some word
/// stands at its start; else 0.4 where some word stands in it; else 0. Nothing
/// is scored for a query without words.
pub proof fn texts_are_graded_by_the_words_they_hold(value: Seq<char>, tokens: Seq<Seq<char>>)
    requires
        tokens.len() > 0,
    ensures
        relevance(value, Seq::empty()) == 0,
        lowercase(value) == join_of(tokens, " "@) ==> relevance(value, tokens)
            == 1_000_000_000_000,
        lowercase(value) != join_of(tokens, " "@) ==> ({
            let text = lowercase(value);
            let score = relevance(value, tokens);
            &&& score == 800_000_000_000 <==> forall|i: int|
                0 <= i < tokens.len() ==> stands_in(text, #[trigger] tokens[i])
            &&& score == 0 <==> !exists|i: int|
                0 <= i < tokens.len() && stands_in(text, #[trigger] tokens[i])
            &&& score < 800_000_000_000 && (exists|i: int|
                0 <= i < tokens.len() && (#[trigger] tokens[i]).len() <= text.len() && text.take(
                    tokens[i].len() as int,
                ) == tokens[i]) ==> score == 600_000_000_000
            &&& 0 < score < 800_000_000_000 && !(exists|i: int|
                0 <= i < tokens.len() && (#[trigger] tokens[i]).len() <= text.len() && text.take(
                    tokens[i].len() as int,
                ) == tokens[i]) ==> score == 400_000_000_000
        }),
{
    let text = lowercase(value);
    lemma_words_found(tokens, text);
    assert(starts_with_any(tokens, text) <==> exists|i: int|
        0 <= i < tokens.len() && (#[trigger] tokens[i]).len() <= text.len() && text.take(
            tokens[i].len() as int,
        ) == tokens[i]) by {
        assert forall|i: int| 0 <= i < tokens.len() implies (starts(text, #[trigger] tokens[i])
            <==> tokens[i].len() <= text.len() && text.take(tokens[i].len() as int)
            == tokens[i]) by {
            parts_stand_at_places(text, tokens[i]);
        }
    }
    if exists|i: int|
        0 <= i < tokens.len() && (#[trigger] tokens[i]).len() <= text.len() && text.take(
            tokens[i].len() as int,
        ) == tokens[i] {
        let i = choose|i: int|
            0 <= i < tokens.len() && (#[trigger] tokens[i]).len() <= text.len() && text.take(
                tokens[i].len() as int,
            ) == tokens[i];
        assert(text.subrange(0int, 0int + tokens[i].len()) =~= text.take(tokens[i].len() as int));
        assert(stands_in(text, tokens[i]));
    }
}

proof fn lemma_scores(value: Seq<char>, tokens: Seq<Seq<char>>)
    ensures
        relevance(value, tokens) > 0 <==> exists|i: int|
            0 <= i < tokens.len() && stands_in(lowercase(value), #[trigger] tokens[i]),
    decreases tokens.len(),
{
    if tokens.len() > 0 {
        texts_are_graded_by_the_words_they_hold(value, tokens);
        if lowercase(value) == join_of(tokens, " "@) {
            lemma_join_begins(tokens, " "@);
            let text = lowercase(value);
            assert(text.subrange(0int, 0int + tokens[0].len()) =~= tokens[0]);
            assert(stands_in(text, tokens[0]));
        }
    }
}

proof fn lemma_join_begins(parts: Seq<Seq<char>>, sep: Seq<char>)
    requires
        parts.len() > 0,
    ensures
        parts[0].len() <= join_of(parts, sep).len(),
        join_of(parts, sep).take(parts[0].len() as int) == parts[0],
    decreases parts.len(),
{
    if parts.len() > 1 {
        lemma_join_begins(parts.drop_last(), sep);
        let before = join_of(parts.drop_last(), sep);
        assert(join_of(parts, sep).take(parts[0].len() as int) =~= before.take(
            parts[0].len() as int,
        ));
    } else {
        assert(join_of(parts, sep).take(parts[0].len() as int) =~= parts[0]);
    }
}

/// Working memory recalls entries that it holds, that have not expired, that the
/// request admits and that hold a word of the query; no more than the request
/// allows, the best first, and of equally good ones the one used last first.
pub proof fn recalled_entries_answer(
    memory: Working,
    req: RecallRequest,
    at: MomentModel,
    results: Seq<ResultModel>,
)
    requires
        memory.wf(),
        memory.is_keyed(),
        memory.recalls(req, at, results),
    ensures
        results.len() <= req.limit_of(),
        forall|i: int, j: int|
            0 <= i < j < results.len() ==> {
                &&& (#[trigger] results[i]).entry.key != (#[trigger] results[j]).entry.key
                &&& results[i].score > results[j].score || (results[i].score == results[j].score
                    && memory.used[results[i].entry.key] >= memory.used[results[j].entry.key])
            },
        forall|i: int|
            0 <= i < results.len() ==> {
                let entry = (#[trigger] results[i]).entry;
                &&& memory.entries.contains_key(entry.key) && memory.entries[entry.key] == entry
                &&& !has_expired(entry, at) && req.admits(entry)
                &&& exists|w: int|
                    0 <= w < words_of(lowercase(req.query@)).len() && stands_in(
                        lowercase(entry.value),
                        #[trigger] words_of(lowercase(req.query@))[w],
                    )
                &&& results[i].score == relevance(entry.value, words_of(lowercase(req.query@)))
                &&& results[i].from_layer == "L0"@
            },
{
    let tokens = words_of(lowercase(req.query@));
    let order = choose|order: Seq<Seq<char>>| #[trigger]
        memory.ranks(req, at, order) && results == memory.results_for(
            first_of(order, req.limit_of() as int),
            words_asked(req),
        );
    assert forall|i: int| 0 <= i < results.len() implies {
        &&& (#[trigger] results[i]).entry.key == order[i]
        &&& memory.answers(order[i], req, at)
        &&& results[i] == memory.result_for(order[i], tokens)
    } by {
        assert(order.contains(order[i]));
    }
    assert forall|i: int, j: int| 0 <= i < j < results.len() implies {
        &&& (#[trigger] results[i]).entry.key != (#[trigger] results[j]).entry.key
        &&& results[i].score > results[j].score || (results[i].score == results[j].score
            && memory.used[results[i].entry.key] >= memory.used[results[j].entry.key])
    } by {
        assert(order[i] != order[j]);
        assert(memory.rank_of(order[i], tokens).ahead(memory.rank_of(order[j], tokens)));
    }
    assert forall|i: int| 0 <= i < results.len() implies exists|w: int|
        0 <= w < tokens.len() && stands_in(
            lowercase((#[trigger] results[i]).entry.value),
            #[trigger] tokens[w],
        ) by {
        lemma_scores(results[i].entry.value, tokens);
    }
}

/// An entry of working memory that has not expired, that the request admits and
/// in which a word of the query stands is recalled, unless the limit is reached.
pub proof fn entry_with_a_word_is_recalled(
    memory: Working,
    req: RecallRequest,
    at: MomentModel,
    results: Seq<ResultModel>,
    key: Seq<char>,
    w: int,
)
    requires
        memory.recalls(req, at, results),
        results.len() < req.limit_of(),
        memory.entries.contains_key(key),
        !has_expired(memory.entries[key], at),
        req.admits(memory.entries[key]),
        0 <= w < words_of(lowercase(req.query@)).len(),
        stands_in(lowercase(memory.entries[key].value), words_of(lowercase(req.query@))[w]),
    ensures
        exists|i: int| 0 <= i < results.len() && (#[trigger] results[i]).entry
            == memory.entries[key],
{
    let tokens = words_of(lowercase(req.query@));
    let order = choose|order: Seq<Seq<char>>| #[trigger]
        memory.ranks(req, at, order) && results == memory.results_for(
            first_of(order, req.limit_of() as int),
            words_asked(req),
        );
    lemma_scores(memory.entries[key].value, tokens);
    assert(stands_in(lowercase(memory.entries[key].value), tokens[w]));
    assert(memory.answers(key, req, at));
    assert(order.contains(key));
    let i = order.index_of(key);
    assert(results[i].entry == memory.entries[key]);
}

/// A write puts the entry under its key. Where the memory is full and the key
/// is new, one entry goes, and none that stays was used longer ago.
pub proof fn writing_makes_room_for_the_new(
    before: Working,
    key: Seq<char>,
    entry: EntryModel,
    after: Working,
)
    requires
        before.wf(),
        before.wrote(key, entry, after),
    ensures
        before.entries.len() < before.capacity || before.entries.contains_key(key)
            ==> after.entries == before.entries.insert(key, entry) && after.used
            == before.used.insert(key, after.clock),
        before.entries.len() >= before.capacity && !before.entries.contains_key(key)
            ==> exists|victim: Seq<char>|
            {
                &&& #[trigger] before.entries.contains_key(victim)
                &&& forall|other: Seq<char>| #[trigger]
                    before.used.contains_key(other) ==> before.used[victim] <= before.used[other]
                &&& after.entries == before.entries.remove(victim).insert(key, entry)
                &&& after.used == before.used.remove(victim).insert(key, after.clock)
            },
        before.clock < u64::MAX ==> after.clock == before.clock + 1,
        before.clock == u64::MAX ==> after.clock == 0,
        after.capacity == before.capacity,
{
    if before.is_full_for(key) {
        let victim = choose|victim: Seq<char>| #[trigger]
            before.is_oldest(victim) && after == before.without(victim).with(key, entry);
        assert(before.entries.contains_key(victim));
    }
}

/// A use of a key is noted as the last one and changes nothing else; a key that
/// goes takes its entry and its last use along and changes nothing else.
pub proof fn uses_and_removals_touch_one_key(before: Working, key: Seq<char>)
    ensures
        before.touched(key).entries == before.entries,
        before.touched(key).used == before.used.insert(key, before.touched(key).clock),
        before.clock < u64::MAX ==> before.touched(key).clock == before.clock + 1,
        before.touched(key).capacity == before.capacity,
        before.without(key).entries == before.entries.remove(key),
        before.without(key).used == before.used.remove(key),
        before.without(key).clock == before.clock,
        before.without(key).capacity == before.capacity,
{
}

/// A key is live exactly where an entry stands under it that has not expired.
pub proof fn live_keys_hold_entries(memory: Working, key: Seq<char>, at: MomentModel)
    ensures
        memory.is_live(key, at) <==> memory.entries.contains_key(key) && (
        memory.entries[key].expires_at is None || !(memory.entries[key].expires_at->0.secs < at.secs
            || (memory.entries[key].expires_at->0.secs == at.secs
            && memory.entries[key].expires_at->0.nanos < at.nanos))),
{
}

} // verus!
