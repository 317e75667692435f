//! What the index of semantic memory promises.

use crate::bm25::{counted_in, counted_out, tokens_of, Bm25State};
use crate::common::{EntryModel, RecallRequest, ResultModel};
use crate::fusion::{
    fused_score, is_ranking, ranking_falls, ranking_keeps_items, shares_are_at_most_one, shares_of,
};
use crate::l2::{
    as_results, counts_match, describes, docs_from, docs_keyed, finite_bits, finite_vector, follows,
    has_text, held_by, holders, is_current, is_recall, is_scoring, lemma_total_remove, needs_vector,
    posted, occurrences, raw_shares_of, searchable, total_hits, total_tokens, vectors_beside,
    vectors_with, way_of, Candidate, Followed, Index,
};
use crate::text::first_of;
use vstd::prelude::*;

verus! {

/// Counting a document in raises the number of documents by one, the number of
/// tokens by those of the document, and the number of documents that hold a
/// token by one for each token that it holds.
pub proof fn counts_rise_by_a_document(before: Bm25State, after: Bm25State, value: Seq<char>)
    requires
        counted_in(before, after, value),
    ensures
        after.docs() == before.docs() + 1,
        after.total() == before.total() + tokens_of(value).len(),
        forall|t: Seq<char>| #[trigger]
            tokens_of(value).contains(t) ==> after.freq(t) == before.freq(t) + 1,
        forall|t: Seq<char>|
            !(#[trigger] tokens_of(value).contains(t)) ==> after.freq(t) == before.freq(t),
{
}

/// Counting a document out lowers the same numbers, none of them below zero;
/// where no document is counted, nothing changes.
pub proof fn counts_fall_by_a_document(before: Bm25State, after: Bm25State, value: Seq<char>)
    requires
        counted_out(before, after, value),
    ensures
        before.docs() == 0 ==> after == before,
        before.docs() > 0 ==> {
            &&& after.docs() + 1 == before.docs()
            &&& before.total() >= tokens_of(value).len() ==> after.total() + tokens_of(value).len()
                == before.total()
            &&& before.total() < tokens_of(value).len() ==> after.total() == 0
            &&& forall|t: Seq<char>| #[trigger]
                tokens_of(value).contains(t) && before.freq(t) > 0 ==> after.freq(t) + 1
                    == before.freq(t)
            &&& forall|t: Seq<char>|
                !(#[trigger] tokens_of(value).contains(t)) ==> after.freq(t) == before.freq(t)
        },
{
}

/// The number of tokens of all documents grows by the tokens of each document
/// that comes under a new key.
pub proof fn tokens_of_all_documents_add_up(
    docs: Map<Seq<char>, EntryModel>,
    key: Seq<char>,
    entry: EntryModel,
)
    requires
        docs.dom().finite(),
        !docs.contains_key(key),
    ensures
        total_tokens(Map::empty()) == 0,
        total_tokens(docs.insert(key, entry)) == total_tokens(docs) + tokens_of(entry.value).len(),
{
    let with = docs.insert(key, entry);
    assert(with.dom() =~= docs.dom().insert(key));
    lemma_total_remove(with, key);
    assert(with.remove(key) =~= docs);
    assert(Map::<Seq<char>, EntryModel>::empty().dom() =~= Set::empty());
}

/// The documents that hold a token are those that have it among their tokens.
pub proof fn holders_hold_the_token(
    docs: Map<Seq<char>, EntryModel>,
    key: Seq<char>,
    token: Seq<char>,
)
    ensures
        holders(docs, token).contains(key) <==> docs.contains_key(key) && tokens_of(
            docs[key].value,
        ).contains(token),
{
}

/// The counts of an index are the number of its documents, of their tokens, and
/// of the documents that hold each token.
pub proof fn counts_are_those_of_the_documents(
    docs: Map<Seq<char>, EntryModel>,
    counts: Bm25State,
    token: Seq<char>,
)
    requires
        counts_match(docs, counts),
    ensures
        counts.docs() == docs.dom().len(),
        counts.total() == total_tokens(docs),
        counts.freq(token) == holders(docs, token).len(),
{
}

/// A key is listed under a token as often as its document holds the token.
pub proof fn keys_are_listed_under_their_tokens(index: Index, key: Seq<char>, token: Seq<char>)
    requires
        index.wf(),
    ensures
        (if index.postings.contains_key(token) {
            index.postings[token].to_multiset().count(key)
        } else {
            0
        }) == (if index.docs.contains_key(key) {
            tokens_of(index.docs[key].value).to_multiset().count(token)
        } else {
            0
        }),
{
    broadcast use vstd::seq_lib::group_to_multiset_ensures;

    assert(posted(index.postings, token, key) == occurrences(index.docs, key, token));
    assert(Seq::<Seq<char>>::empty().to_multiset().count(key) == 0);
}

/// A change is followed exactly where its number is higher than the last one,
/// and in turn exactly where it is the next number.
pub proof fn changes_are_followed_by_number(processed: u64, seq: u64)
    ensures
        follows(processed, seq) == Followed::Dropped <==> seq <= processed,
        follows(processed, seq) == Followed::InTurn <==> seq == processed + 1,
        follows(processed, seq) == Followed::AfterGap <==> seq >= processed + 2,
{
}

/// The entry under a key is to be embedded exactly where it is there, has no
/// vector or changed since it got one, and has at most 512,000 bytes.
pub proof fn entries_without_vectors_are_embedded(index: Index, key: Seq<char>)
    ensures
        needs_vector(index, key) <==> index.docs.contains_key(key) && (
        !index.vectors.contains_key(key) || index.pending.contains(key))
            && vstd::utf8::encode_utf8(index.docs[key].value).len() <= 512_000,
{
}

/// Indexing an entry keeps all vectors, but that under its key where its text is
/// too large to be embedded.
pub proof fn vectors_of_large_texts_go(
    vectors: Map<Seq<char>, Seq<u32>>,
    key: Seq<char>,
    entry: EntryModel,
)
    ensures
        vstd::utf8::encode_utf8(entry.value).len() <= 512_000 ==> vectors_beside(
            vectors,
            key,
            entry,
        ) == vectors,
        vstd::utf8::encode_utf8(entry.value).len() > 512_000 ==> vectors_beside(
            vectors,
            key,
            entry,
        ) == vectors.remove(key),
{
}

/// A search goes by the vectors whose entries did not change since they were
/// embedded, and by no others.
pub proof fn searches_go_by_current_vectors(index: Index, key: Seq<char>)
    ensures
        searchable(index).contains_key(key) <==> index.vectors.contains_key(key)
            && !index.pending.contains(key),
        searchable(index).contains_key(key) ==> searchable(index)[key] == index.vectors[key],
{
}

/// A vector is kept for new documents exactly where it is that of the text that
/// they have under its key.
pub proof fn vectors_of_unchanged_texts_are_kept(
    index: Index,
    docs: Map<Seq<char>, EntryModel>,
    key: Seq<char>,
)
    ensures
        is_current(index, docs, key) <==> searchable(index).contains_key(key)
            && index.docs.contains_key(key) && has_text(docs, key, index.docs[key].value),
        has_text(docs, key, index.docs[key].value) <==> docs.contains_key(key) && docs[key].value
            == index.docs[key].value,
{
}

/// The last entry with a key in a list is the document under that key.
pub proof fn last_entry_of_a_key_is_its_document(entries: Seq<EntryModel>, i: int)
    requires
        0 <= i < entries.len(),
        forall|j: int| i < j < entries.len() ==> (#[trigger] entries[j]).key != entries[i].key,
    ensures
        docs_from(entries).contains_key(entries[i].key),
        docs_from(entries)[entries[i].key] == entries[i],
    decreases entries.len(),
{
    let n = entries.len() - 1;
    if i < n {
        let rest = entries.drop_last();
        assert forall|j: int| i < j < rest.len() implies (#[trigger] rest[j]).key
            != rest[i].key by {
            assert(entries[j].key != entries[i].key);
        }
        assert(entries[n].key != entries[i].key);
        last_entry_of_a_key_is_its_document(rest, i);
    }
}

/// Every document that a list of entries makes is one of the entries, under its
/// key.
pub proof fn documents_are_entries_of_the_list(entries: Seq<EntryModel>, key: Seq<char>)
    requires
        docs_from(entries).contains_key(key),
    ensures
        docs_from(entries)[key].key == key,
        entries.contains(docs_from(entries)[key]),
    decreases entries.len(),
{
    let n = entries.len() - 1;
    if entries[n].key == key {
        assert(entries[n] == docs_from(entries)[key]);
    } else {
        let rest = entries.drop_last();
        documents_are_entries_of_the_list(rest, key);
        let i = rest.index_of(docs_from(rest)[key]);
        assert(entries[i] == rest[i]);
    }
}

/// Of the vectors that a list gives for a key the last finite one is taken; a key
/// for which it gives none keeps what it has.
pub proof fn last_finite_vector_is_taken(
    vectors: Map<Seq<char>, Seq<u32>>,
    list: Seq<(Seq<char>, Seq<u32>)>,
    key: Seq<char>,
)
    ensures
        forall|i: int|
            0 <= i < list.len() && (#[trigger] list[i]).0 == key && finite_vector(list[i].1) && (
            forall|j: int|
                i < j < list.len() && (#[trigger] list[j]).0 == key ==> !finite_vector(list[j].1))
                ==> vectors_with(vectors, list).contains_key(key) && vectors_with(
                vectors,
                list,
            )[key] == list[i].1,
        (forall|i: int|
            0 <= i < list.len() && (#[trigger] list[i]).0 == key ==> !finite_vector(list[i].1)) ==> (
        vectors_with(vectors, list).contains_key(key) <==> vectors.contains_key(key)) && (
        vectors.contains_key(key) ==> vectors_with(vectors, list)[key] == vectors[key]),
    decreases list.len(),
{
    if list.len() > 0 {
        let rest = list.drop_last();
        let n = list.len() - 1;
        last_finite_vector_is_taken(vectors, rest, key);
        assert forall|i: int|
            0 <= i < list.len() && (#[trigger] list[i]).0 == key && finite_vector(list[i].1) && (
            forall|j: int|
                i < j < list.len() && (#[trigger] list[j]).0 == key ==> !finite_vector(
                    list[j].1,
                )) implies vectors_with(vectors, list).contains_key(key) && vectors_with(
            vectors,
            list,
        )[key] == list[i].1 by {
            if i < n {
                assert(rest[i] == list[i]);
                assert(list[n].0 == key ==> !finite_vector(list[n].1));
                assert forall|j: int| i < j < rest.len() && (#[trigger] rest[j]).0 == key implies
                    !finite_vector(rest[j].1) by {
                    assert(list[j].0 == key);
                }
            }
        }
        if forall|i: int|
            0 <= i < list.len() && (#[trigger] list[i]).0 == key ==> !finite_vector(list[i].1) {
            assert forall|i: int| 0 <= i < rest.len() && (#[trigger] rest[i]).0 == key implies
                !finite_vector(rest[i].1) by {
                assert(list[i].0 == key);
            }
            assert(list[n].0 == key ==> !finite_vector(list[n].1));
        }
    }
}

/// The bits of a finite number are below those of infinity, but for the sign; a
/// vector is finite where all its components are.
pub proof fn finite_numbers_are_below_infinity(bits: u32, vector: Seq<u32>)
    ensures
        finite_bits(bits) <==> bits < 0x7f80_0000 || 0x8000_0000 <= bits < 0xff80_0000,
        finite_vector(vector) <==> forall|i: int|
            0 <= i < vector.len() ==> (#[trigger] vector[i] < 0x7f80_0000) || 0x8000_0000
                <= vector[i] < 0xff80_0000,
{
    lemma_finite_bits(bits);
    assert forall|i: int| 0 <= i < vector.len() implies (finite_bits(#[trigger] vector[i]) <==> (
    vector[i] < 0x7f80_0000) || 0x8000_0000 <= vector[i] < 0xff80_0000) by {
        lemma_finite_bits(vector[i]);
    }
}

proof fn lemma_finite_bits(bits: u32)
    ensures
        finite_bits(bits) <==> bits < 0x7f80_0000 || 0x8000_0000 <= bits < 0xff80_0000,
{
    assert(((bits / 0x80_0000) % 256 != 255) <==> (bits < 0x7f80_0000 || (0x8000_0000 <= bits
        && bits < 0xff80_0000))) by (bit_vector);
}

/// A document counts for a query once for each time that it holds each token of
/// the query.
pub proof fn hits_add_up(doc: Seq<Seq<char>>, query: Seq<Seq<char>>, token: Seq<char>)
    ensures
        total_hits(doc, Seq::empty()) == 0,
        total_hits(doc, query.push(token)) == total_hits(doc, query) + doc.to_multiset().count(
            token,
        ),
{
    assert(query.push(token).drop_last() =~= query);
}

/// What is told of a candidate: the number of tokens of its document and, for
/// each token of the query in turn, how many documents hold it and how often its
/// own does.
pub proof fn candidates_are_described(
    c: Candidate,
    docs: Map<Seq<char>, EntryModel>,
    query: Seq<Seq<char>>,
)
    requires
        describes(c, docs, query),
    ensures
        c.doc_len == tokens_of(docs[c.key@].value).len(),
        c.terms@.len() == query.len(),
        forall|j: int|
            0 <= j < query.len() ==> {
                &&& (#[trigger] c.terms@[j]).df == docs.dom().filter(
                    |k: Seq<char>| tokens_of(docs[k].value).contains(query[j]),
                ).len()
                &&& c.terms@[j].tf == tokens_of(docs[c.key@].value).to_multiset().count(query[j])
            },
        c.hits == total_hits(tokens_of(docs[c.key@].value), query),
{
    assert forall|j: int| 0 <= j < query.len() implies (#[trigger] c.terms@[j]).df
        == docs.dom().filter(
        |k: Seq<char>| tokens_of(docs[k].value).contains(query[j]),
    ).len() by {
        assert(holders(docs, query[j]) =~= docs.dom().filter(
            |k: Seq<char>| tokens_of(docs[k].value).contains(query[j]),
        ));
    }
}

/// What is recalled is a document that the request admits, with the score that
/// its key came to; no more than the request allows, and the best first. By
/// keyword alone the score is the share of the raw score; with similarities it
/// is six tenths of that share and four tenths of the similarity.
pub proof fn recalled_documents_have_their_scores(
    docs: Map<Seq<char>, EntryModel>,
    req: RecallRequest,
    raw: Seq<(Seq<char>, i64)>,
    similar: Option<Seq<(Seq<char>, i64)>>,
    results: Seq<ResultModel>,
)
    requires
        docs_keyed(docs),
        is_recall(docs, req, raw, similar, results),
    ensures
        results.len() <= req.limit_of(),
        forall|i: int, j: int|
            0 <= i < j < results.len() ==> (#[trigger] results[i]).score >= (
            #[trigger] results[j]).score,
        forall|i: int|
            0 <= i < results.len() ==> {
                let entry = (#[trigger] results[i]).entry;
                &&& docs.contains_key(entry.key) && docs[entry.key] == entry && req.admits(entry)
                &&& similar is None ==> results[i].from_layer == "L2:BM25"@ && exists|p: int|
                    0 <= p < raw.len() && (#[trigger] raw[p]).0 == entry.key && results[i].score
                        == shares_of(raw)[p].1
                &&& similar is Some ==> results[i].from_layer == "L2:Hybrid"@ && results[i].score
                    == fused_score(raw_shares_of(raw), similar->0, 600_000_000_000, entry.key)
            },
{
    broadcast use vstd::seq_lib::group_filter_ensures;

    let (scored, ranked) = choose|scored: Seq<(Seq<char>, u64)>, ranked: Seq<(Seq<char>, u64)>|
        #![trigger is_scoring(raw, similar, scored), is_ranking(scored.filter(held_by(docs, req)), ranked)]
        is_scoring(raw, similar, scored) && is_ranking(scored.filter(held_by(docs, req)), ranked)
            && results == first_of(
            as_results(docs, ranked, way_of(similar is Some)),
            req.limit_of() as int,
        );
    let held = scored.filter(held_by(docs, req));
    ranking_keeps_items(held, ranked);
    ranking_falls(held, ranked);
    let all = as_results(docs, ranked, way_of(similar is Some));
    assert forall|i: int| 0 <= i < results.len() implies #[trigger] results[i] == all[i] && {
        let entry = results[i].entry;
        &&& docs.contains_key(entry.key) && docs[entry.key] == entry && req.admits(entry)
        &&& ranked[i] == (entry.key, results[i].score)
        &&& scored.contains((entry.key, results[i].score))
    } by {
        assert(ranked.contains(ranked[i]));
        assert(held.contains(ranked[i]));
        crate::sort::lemma_filter_within(scored, held_by(docs, req), ranked[i]);
    }
    assert forall|i: int, j: int| 0 <= i < j < results.len() implies (#[trigger] results[i]).score
        >= (#[trigger] results[j]).score by {
        assert(ranked[i].1 >= ranked[j].1);
    }
    assert forall|i: int| 0 <= i < results.len() implies {
        let entry = (#[trigger] results[i]).entry;
        &&& similar is None ==> exists|p: int|
            0 <= p < raw.len() && (#[trigger] raw[p]).0 == entry.key && results[i].score
                == shares_of(raw)[p].1
        &&& similar is Some ==> results[i].score == fused_score(
            raw_shares_of(raw),
            similar->0,
            600_000_000_000,
            entry.key,
        )
    } by {
        let entry = results[i].entry;
        let p = scored.index_of((entry.key, results[i].score));
        assert(scored[p].0 == entry.key);
        if similar is None {
            assert(raw[p].0 == entry.key);
        }
    }
}

/// The shares of raw scores, taken as raw scores again, are the same numbers
/// under the same keys.
pub proof fn shares_are_taken_as_scores(raw: Seq<(Seq<char>, i64)>, i: int)
    requires
        0 <= i < raw.len(),
    ensures
        raw_shares_of(raw).len() == raw.len(),
        raw_shares_of(raw)[i].0 == raw[i].0,
        raw_shares_of(raw)[i].1 == shares_of(raw)[i].1,
{
    shares_are_at_most_one(raw, i);
}

} // verus!
