//! Semantic memory: an index over the entries of the short-term layer.
//!
//! Entries are found by keyword, ranked by BM25, and by the similarity of
//! embedding vectors. This module keeps the index, decides what is a
//! candidate and what is to be embedded, and turns raw scores into results.
//! The two formulas in floating point, and the calls of the embedding service,
//! are the caller's.

use crate::bm25::{counted_in, counted_out, tokens_of, Bm25State};
use crate::common::{
    Entry, EntryModel, L1Event, RecallRequest, RecallResult, ResultModel, SCORE_ONE,
    results_of,
};
use crate::fusion::{
    by_score, hybrid_fuse, is_fusion, is_ranking, keys_differ, normalise, ranking_falls,
    ranking_keeps_items, raw_keys_differ, raw_of, scored_of, shares_are_at_most_one, shares_of,
};
use crate::table::{
    add_key, count_entries, count_keys, count_vectors, drop_key, drop_vector, entries_in,
    get_entry, get_posting, has_key, has_vector, keys_in, list_entries, list_vectors, lists_all,
    lists_vectors, new_entries, new_keys, new_postings, new_vectors, postings_in, put_entry,
    put_posting, put_vector, take_entry, vectors_in,
};
use crate::text::{first_of, same_str, texts};
use dashmap::{DashMap, DashSet};
use std::sync::Arc;
use vstd::hash_map::StringHashMap;
use vstd::prelude::*;
use vstd::string::*;

verus! {

broadcast use vstd::hash_map::group_hash_map_axioms;

/// The index as mathematical values.
#[verifier::ext_equal]
pub struct Index {
    /// The indexed entries by key.
    pub docs: Map<Seq<char>, EntryModel>,
    /// For each token the keys of the entries that hold it, once for each time
    /// that the entry holds it.
    pub postings: Map<Seq<char>, Seq<Seq<char>>>,
    /// The embedding vectors by key, as the bits of their components.
    pub vectors: Map<Seq<char>, Seq<u32>>,
    /// The keys whose entry changed since it was embedded.
    pub pending: Set<Seq<char>>,
}

/// The number of tokens of all documents.
pub open spec fn total_tokens(docs: Map<Seq<char>, EntryModel>) -> nat
    decreases docs.dom().len(),
    when docs.dom().finite()
{
    if docs.dom().len() == 0 {
        0
    } else {
        let k = docs.dom().choose();
        if docs.dom().contains(k) {
            tokens_of(docs[k].value).len() + total_tokens(docs.remove(k))
        } else {
            0
        }
    }
}

/// The keys of the documents that hold a token.
pub open spec fn holders(docs: Map<Seq<char>, EntryModel>, token: Seq<char>) -> Set<Seq<char>> {
    docs.dom().filter(|k: Seq<char>| tokens_of(docs[k].value).contains(token))
}

/// How often a token occurs in a document; 0 where there is no document.
pub open spec fn occurrences(
    docs: Map<Seq<char>, EntryModel>,
    key: Seq<char>,
    token: Seq<char>,
) -> nat {
    if docs.contains_key(key) {
        tokens_of(docs[key].value).to_multiset().count(token)
    } else {
        0
    }
}

/// The keys listed under a token.
pub open spec fn posting(postings: Map<Seq<char>, Seq<Seq<char>>>, token: Seq<char>) -> Seq<
    Seq<char>,
> {
    if postings.contains_key(token) {
        postings[token]
    } else {
        Seq::empty()
    }
}

/// How often a key is listed under a token.
pub open spec fn posted(
    postings: Map<Seq<char>, Seq<Seq<char>>>,
    token: Seq<char>,
    key: Seq<char>,
) -> nat {
    posting(postings, token).to_multiset().count(key)
}

/// Whether the counts are those of the documents.
pub open spec fn counts_match(docs: Map<Seq<char>, EntryModel>, counts: Bm25State) -> bool {
    &&& counts.docs() == docs.len()
    &&& counts.total() == total_tokens(docs)
    &&& forall|t: Seq<char>| #[trigger] counts.freq(t) == holders(docs, t).len()
}

/// Whether each key is listed under each token as often as its entry holds it.
pub open spec fn postings_match(
    docs: Map<Seq<char>, EntryModel>,
    postings: Map<Seq<char>, Seq<Seq<char>>>,
) -> bool {
    forall|t: Seq<char>, k: Seq<char>| #[trigger]
        posted(postings, t, k) == occurrences(docs, k, t)
}

/// Whether every document stands under the key of its entry.
pub open spec fn docs_keyed(docs: Map<Seq<char>, EntryModel>) -> bool {
    forall|k: Seq<char>| #[trigger] docs.contains_key(k) ==> docs[k].key == k
}

/// Whether the bits are those of a finite number of 32 bits.
pub open spec fn finite_bits(bits: u32) -> bool {
    (bits / 0x80_0000) % 256 != 255
}

/// Whether all components of a vector are finite.
pub open spec fn finite_vector(vector: Seq<u32>) -> bool {
    forall|i: int| 0 <= i < vector.len() ==> finite_bits(#[trigger] vector[i])
}

impl Index {
    /// Every key is listed under the tokens of its entry, only finite vectors
    /// are held, and what is pending is there.
    pub open spec fn wf(self) -> bool {
        &&& self.docs.dom().finite()
        &&& forall|k: Seq<char>| #[trigger]
            self.docs.contains_key(k) ==> tokens_of(self.docs[k].value).len() <= usize::MAX
        &&& postings_match(self.docs, self.postings)
        &&& self.vectors.dom().finite()
        &&& forall|k: Seq<char>| #[trigger]
            self.vectors.contains_key(k) ==> finite_vector(self.vectors[k])
        &&& self.pending.subset_of(self.docs.dom())
    }
}

/// The tokens of all documents are those of one and those of the rest.
pub proof fn lemma_total_remove(docs: Map<Seq<char>, EntryModel>, k: Seq<char>)
    requires
        docs.dom().finite(),
        docs.contains_key(k),
    ensures
        total_tokens(docs) == tokens_of(docs[k].value).len() + total_tokens(docs.remove(k)),
    decreases docs.dom().len(),
{
    let c = docs.dom().choose();
    assert(docs.dom().len() > 0) by {
        if docs.dom().len() == 0 {
            assert(docs.dom() =~= Set::empty());
        }
    }
    assert(docs.dom().contains(c));
    if c != k {
        lemma_total_remove(docs.remove(c), k);
        assert(docs.remove(k).dom().finite());
        assert(docs.remove(k).contains_key(c));
        lemma_total_remove(docs.remove(k), c);
        assert(docs.remove(c).remove(k) =~= docs.remove(k).remove(c));
    }
}

proof fn lemma_total_bound(docs: Map<Seq<char>, EntryModel>)
    requires
        docs.dom().finite(),
        forall|k: Seq<char>| #[trigger]
            docs.contains_key(k) ==> tokens_of(docs[k].value).len() <= usize::MAX,
    ensures
        total_tokens(docs) <= docs.len() * usize::MAX,
    decreases docs.dom().len(),
{
    if docs.dom().len() > 0 {
        let c = docs.dom().choose();
        assert(docs.dom().contains(c));
        assert(docs.contains_key(c));
        lemma_total_bound(docs.remove(c));
        let n = docs.remove(c).len();
        assert(docs.len() == n + 1);
        assert(usize::MAX + n * usize::MAX == (n + 1) * usize::MAX) by (nonlinear_arith);
    }
}

proof fn lemma_holders_remove(docs: Map<Seq<char>, EntryModel>, k: Seq<char>, t: Seq<char>)
    requires
        docs.dom().finite(),
        docs.contains_key(k),
    ensures
        holders(docs, t).finite(),
        holders(docs, t).len() <= docs.len(),
        holders(docs, t).len() == holders(docs.remove(k), t).len() + (if tokens_of(
            docs[k].value,
        ).contains(t) {
            1nat
        } else {
            0nat
        }),
{
    let all = holders(docs, t);
    let rest = holders(docs.remove(k), t);
    vstd::set_lib::lemma_len_subset(all, docs.dom());
    if tokens_of(docs[k].value).contains(t) {
        assert(rest.insert(k) =~= all);
        assert(!rest.contains(k));
    } else {
        assert(rest =~= all);
    }
}

proof fn lemma_holders_bound(docs: Map<Seq<char>, EntryModel>, t: Seq<char>)
    requires
        docs.dom().finite(),
    ensures
        holders(docs, t).finite(),
        holders(docs, t).len() <= docs.len(),
{
    vstd::set_lib::lemma_len_subset(holders(docs, t), docs.dom());
}

/// What the counts are follows from the documents: two well-formed indexes
/// over the same documents have the same counts and list every key equally
/// often.
pub proof fn counts_follow_from_documents(
    docs: Map<Seq<char>, EntryModel>,
    a: Bm25State,
    b: Bm25State,
    p: Map<Seq<char>, Seq<Seq<char>>>,
    q: Map<Seq<char>, Seq<Seq<char>>>,
)
    requires
        counts_match(docs, a),
        counts_match(docs, b),
        postings_match(docs, p),
        postings_match(docs, q),
    ensures
        a.docs() == b.docs(),
        a.total() == b.total(),
        forall|t: Seq<char>| #[trigger] a.freq(t) == b.freq(t),
        forall|t: Seq<char>, k: Seq<char>| #[trigger] posted(p, t, k) == posted(q, t, k),
{
    assert forall|t: Seq<char>| #[trigger] a.freq(t) == b.freq(t) by {
        assert(b.freq(t) == holders(docs, t).len());
    }
    assert forall|t: Seq<char>, k: Seq<char>| #[trigger] posted(p, t, k) == posted(q, t, k) by {
        assert(posted(q, t, k) == occurrences(docs, k, t));
    }
}

/// Whether a key is another than the given one.
pub open spec fn other_than(key: Seq<char>) -> spec_fn(Seq<char>) -> bool {
    |k: Seq<char>| k != key
}

proof fn lemma_filter_count(s: Seq<Seq<char>>, key: Seq<char>, x: Seq<char>)
    ensures
        s.filter(other_than(key)).to_multiset().count(x) == (if x == key {
            0
        } else {
            s.to_multiset().count(x)
        }),
    decreases s.len(),
{
    broadcast use vstd::seq_lib::group_to_multiset_ensures;

    reveal(Seq::filter);
    let pred = other_than(key);
    if s.len() > 0 {
        let rest = s.drop_last();
        lemma_filter_count(rest, key, x);
        assert(s =~= rest.push(s.last()));
        assert(s.to_multiset() =~= rest.to_multiset().insert(s.last()));
        if pred(s.last()) {
            assert(s.filter(pred) =~= rest.filter(pred).push(s.last()));
            assert(s.filter(pred).to_multiset() =~= rest.filter(pred).to_multiset().insert(
                s.last(),
            ));
        } else {
            assert(s.filter(pred) =~= rest.filter(pred));
        }
    } else {
        assert(s.filter(pred) =~= s);
    }
}

proof fn lemma_count_contains(s: Seq<Seq<char>>, x: Seq<char>)
    ensures
        s.contains(x) <==> s.to_multiset().count(x) > 0,
{
    broadcast use vstd::seq_lib::group_to_multiset_ensures;

}

proof fn lemma_count_push(s: Seq<Seq<char>>, a: Seq<char>, x: Seq<char>)
    ensures
        s.push(a).to_multiset().count(x) == s.to_multiset().count(x) + (if x == a {
            1nat
        } else {
            0nat
        }),
{
    broadcast use vstd::seq_lib::group_to_multiset_ensures;

    assert(s.push(a).to_multiset() =~= s.to_multiset().insert(a));
}

/// Lists `key` once more under each of the tokens.
fn post(table: &mut DashMap<String, Vec<String>>, key: &str, tokens: &Vec<String>)
    ensures
        forall|t: Seq<char>, k: Seq<char>| #[trigger]
            posted(postings_in(*final(table)), t, k) == posted(postings_in(*old(table)), t, k) + (
            if k == key@ {
                texts(tokens@).to_multiset().count(t)
            } else {
                0
            }),
{
    let n: usize = tokens.len();
    let ghost all = texts(tokens@);
    let ghost start = postings_in(*table);
    proof {
        broadcast use vstd::seq_lib::group_to_multiset_ensures;

        assert(all.take(0) =~= Seq::empty());
    }
    for i in 0..n
        invariant
            n == tokens@.len(),
            all == texts(tokens@),
            forall|t: Seq<char>, k: Seq<char>| #[trigger]
                posted(postings_in(*table), t, k) == posted(start, t, k) + (if k == key@ {
                    all.take(i as int).to_multiset().count(t)
                } else {
                    0
                }),
    {
        let ghost before = postings_in(*table);
        let mut keys: Vec<String> = match get_posting(table, tokens[i].as_str()) {
            Some(keys) => keys,
            None => Vec::new(),
        };
        let ghost tok = tokens@[i as int]@;
        proof {
            assert(texts(keys@) =~= posting(before, tok));
        }
        let ghost listed = keys@;
        let own = key.to_owned();
        keys.push(own);
        proof {
            crate::text::lemma_texts_push(listed, own);
        }
        put_posting(table, tokens[i].clone(), keys);
        proof {
            let now = postings_in(*table);
            assert(all.take(i + 1) =~= all.take(i as int).push(tok));
            assert forall|t: Seq<char>, k: Seq<char>| #[trigger] posted(now, t, k) == posted(
                start,
                t,
                k,
            ) + (if k == key@ {
                all.take(i + 1).to_multiset().count(t)
            } else {
                0
            }) by {
                assert(posted(before, t, k) == posted(start, t, k) + (if k == key@ {
                    all.take(i as int).to_multiset().count(t)
                } else {
                    0
                }));
                lemma_count_push(all.take(i as int), tok, t);
                if t == tok {
                    assert(posting(now, t) == posting(before, t).push(key@));
                    lemma_count_push(posting(before, t), key@, k);
                } else {
                    assert(posting(now, t) == posting(before, t));
                }
            }
        }
    }
    proof {
        assert(all.take(n as int) =~= all);
    }
}

/// The list without `key`.
fn without_key(keys: &Vec<String>, key: &str) -> (r: Vec<String>)
    ensures
        texts(r@) == texts(keys@).filter(other_than(key@)),
{
    let n: usize = keys.len();
    let mut r: Vec<String> = Vec::new();
    let ghost pred = other_than(key@);
    proof {
        reveal(Seq::filter);
        assert(texts(r@) =~= texts(keys@).take(0).filter(pred));
    }
    for i in 0..n
        invariant
            n == keys@.len(),
            pred == other_than(key@),
            texts(r@) == texts(keys@).take(i as int).filter(pred),
    {
        proof {
            let t = texts(keys@);
            assert(t.take(i + 1).drop_last() =~= t.take(i as int));
            assert(t.take(i + 1).last() == keys@[i as int]@);
            reveal(Seq::filter);
        }
        if !same_str(keys[i].as_str(), key) {
            let k = keys[i].clone();
            proof {
                crate::text::lemma_texts_push(r@, k);
            }
            r.push(k);
        }
    }
    proof {
        assert(texts(keys@).take(n as int) =~= texts(keys@));
    }
    r
}

/// Takes `key` off the lists of all of the tokens.
fn unpost(table: &mut DashMap<String, Vec<String>>, key: &str, tokens: &Vec<String>)
    ensures
        forall|t: Seq<char>, k: Seq<char>| #[trigger]
            posted(postings_in(*final(table)), t, k) == (if k == key@ && texts(tokens@).contains(
                t,
            ) {
                0
            } else {
                posted(postings_in(*old(table)), t, k)
            }),
{
    let n: usize = tokens.len();
    let ghost all = texts(tokens@);
    let ghost start = postings_in(*table);
    for i in 0..n
        invariant
            n == tokens@.len(),
            all == texts(tokens@),
            forall|t: Seq<char>, k: Seq<char>| #[trigger]
                posted(postings_in(*table), t, k) == (if k == key@ && all.take(i as int).contains(
                    t,
                ) {
                    0
                } else {
                    posted(start, t, k)
                }),
    {
        let ghost before = postings_in(*table);
        let ghost tok = tokens@[i as int]@;
        let keys: Vec<String> = match get_posting(table, tokens[i].as_str()) {
            Some(keys) => keys,
            None => Vec::new(),
        };
        proof {
            assert(texts(keys@) =~= posting(before, tok));
        }
        let kept = without_key(&keys, key);
        put_posting(table, tokens[i].clone(), kept);
        proof {
            let now = postings_in(*table);
            crate::bm25::lemma_take_contains(all, i as int);
            assert(all[i as int] == tok);
            assert forall|t: Seq<char>, k: Seq<char>| #[trigger] posted(now, t, k) == (if k == key@
                && all.take(i + 1).contains(t) {
                0
            } else {
                posted(start, t, k)
            }) by {
                assert(posted(before, t, k) == (if k == key@ && all.take(i as int).contains(t) {
                    0
                } else {
                    posted(start, t, k)
                }));
                if t == tok {
                    assert(posting(now, t) == posting(before, t).filter(other_than(key@)));
                    lemma_filter_count(posting(before, t), key@, k);
                    assert(all.take(i + 1).contains(t));

                } else {
                    assert(posting(now, t) == posting(before, t));
                }
            }
        }
    }
    proof {
        assert(all.take(n as int) =~= all);
    }
}

/// The index of the semantic layer.
pub struct L2 {
    store: DashMap<String, Arc<Entry>>,
    vectors: DashMap<String, Vec<u32>>,
    bm25: Bm25State,
    keyword_index: DashMap<String, Vec<String>>,
    vectorless_keys: DashSet<String>,
    processed_seq: u64,
}

impl View for L2 {
    type V = Index;

    closed spec fn view(&self) -> Index {
        Index {
            docs: entries_in(self.store),
            postings: postings_in(self.keyword_index),
            vectors: vectors_in(self.vectors),
            pending: keys_in(self.vectorless_keys),
        }
    }
}

impl L2 {
    /// The counts over the documents.
    pub closed spec fn counts(&self) -> Bm25State {
        self.bm25
    }

    /// The number of the last change that the index followed.
    pub closed spec fn processed(&self) -> u64 {
        self.processed_seq
    }

    /// The index is well-formed and its counts are those of its documents.
    pub open spec fn wf(&self) -> bool {
        &&& self@.wf()
        &&& counts_match(self@.docs, self.counts())
    }

    /// Every document stands under the key of its entry.
    pub open spec fn is_keyed(&self) -> bool {
        docs_keyed(self@.docs)
    }

    /// An empty index.
    pub fn empty() -> (r: Self)
        ensures
            r.wf(),
            r@.docs == Map::<Seq<char>, EntryModel>::empty(),
            r@.vectors == Map::<Seq<char>, Seq<u32>>::empty(),
            r@.pending == Set::<Seq<char>>::empty(),
            r.processed() == 0,
    {
        let r = L2 {
            store: new_entries(),
            vectors: new_vectors(),
            bm25: Bm25State::new(),
            keyword_index: new_postings(),
            vectorless_keys: new_keys(),
            processed_seq: 0,
        };
        proof {
            broadcast use vstd::seq_lib::group_to_multiset_ensures;

            assert(r@.docs.dom() =~= Set::empty());
            assert(r@.vectors.dom() =~= Set::empty());
            assert forall|t: Seq<char>| #[trigger] r.counts().freq(t) == holders(
                r@.docs,
                t,
            ).len() by {
                assert(holders(r@.docs, t) =~= Set::empty());
            }
        }
        r
    }

    /// Takes the document under `key` out of the index, where there is one.
    fn forget(&mut self, key: &str)
        requires
            old(self).wf(),
        ensures
            final(self).wf(),
            final(self)@.docs == old(self)@.docs.remove(key@),
            final(self)@.vectors == old(self)@.vectors,
            final(self)@.pending == old(self)@.pending.remove(key@),
            final(self).processed() == old(self).processed(),
    {
        let ghost start = self@;
        match take_entry(&mut self.store, key) {
            Some(entry) => {
                let value: &str = entry.value.as_str();
                let tokens = Bm25State::tokenize(value);
                let ghost counts = self.bm25;
                self.bm25.remove(value);
                unpost(&mut self.keyword_index, key, &tokens);
                drop_key(&mut self.vectorless_keys, key);
                proof {
                    let docs = start.docs;
                    let rest = docs.remove(key@);
                    assert(docs.dom().len() > 0);
                    lemma_total_remove(docs, key@);
                    assert(counts_match(rest, self.bm25)) by {
                        assert(counted_out(counts, self.bm25, value@));
                        assert forall|t: Seq<char>| #[trigger] self.bm25.freq(t) == holders(
                            rest,
                            t,
                        ).len() by {
                            lemma_holders_remove(docs, key@, t);
                            assert(counts.freq(t) == holders(docs, t).len());
                        }
                    }
                    assert(postings_match(rest, self@.postings)) by {
                        assert forall|t: Seq<char>, k: Seq<char>| #[trigger] posted(
                            self@.postings,
                            t,
                            k,
                        ) == occurrences(rest, k, t) by {
                            assert(posted(start.postings, t, k) == occurrences(docs, k, t));
                            lemma_count_contains(tokens_of(value@), t);
                        }
                    }
                }
            },
            None => {
                proof {
                    assert(start.docs.remove(key@) =~= start.docs);
                    assert(start.pending.remove(key@) =~= start.pending);
                }
            },
        }
    }

    /// Puts a document into the index under a key that has none.
    fn learn(&mut self, key: &str, entry: Entry)
        requires
            old(self).wf(),
            !old(self)@.docs.contains_key(key@),
        ensures
            final(self).wf(),
            final(self)@.docs == old(self)@.docs.insert(key@, entry@),
            final(self)@.vectors == old(self)@.vectors,
            final(self)@.pending == old(self)@.pending,
            final(self).processed() == old(self).processed(),
    {
        let ghost start = self@;
        let ghost counts = self.bm25;
        let ghost model = entry@;
        let value = entry.value.clone();
        let tokens = Bm25State::tokenize(value.as_str());
        let n_tokens: usize = tokens.len();
        put_entry(&mut self.store, key.to_owned(), Arc::new(entry));
        let n_docs: usize = count_entries(&self.store);
        let ghost docs = start.docs.insert(key@, model);
        proof {
            assert(texts(tokens@).len() == n_tokens);
            assert(docs.dom() =~= start.docs.dom().insert(key@));
            assert(docs.len() == start.docs.len() + 1);
            assert(n_docs == docs.len());
            lemma_total_bound(start.docs);
            assert forall|t: Seq<char>| #[trigger] tokens_of(value@).contains(
                t,
            ) implies counts.freq(t) < usize::MAX by {
                lemma_holders_bound(start.docs, t);
                assert(counts.freq(t) == holders(start.docs, t).len());
            }
            assert(start.docs.len() * usize::MAX + usize::MAX <= u128::MAX) by (nonlinear_arith)
                requires
                    start.docs.len() < usize::MAX,
                    usize::MAX <= 0xffff_ffff_ffff_ffff,
            ;
        }
        self.bm25.update(value.as_str());
        post(&mut self.keyword_index, key, &tokens);
        proof {
            assert(docs.remove(key@) =~= start.docs);
            lemma_total_remove(docs, key@);
            assert(counts_match(docs, self.bm25)) by {
                assert(counted_in(counts, self.bm25, value@));
                assert forall|t: Seq<char>| #[trigger] self.bm25.freq(t) == holders(
                    docs,
                    t,
                ).len() by {
                    lemma_holders_remove(docs, key@, t);
                    assert(counts.freq(t) == holders(start.docs, t).len());
                }
            }
            assert(postings_match(docs, self@.postings)) by {
                assert forall|t: Seq<char>, k: Seq<char>| #[trigger] posted(
                    self@.postings,
                    t,
                    k,
                ) == occurrences(docs, k, t) by {
                    assert(posted(start.postings, t, k) == occurrences(start.docs, k, t));
                }
            }
        }
    }

    /// Indexes an entry, in place of the one that was under the key, and marks
    /// it as not embedded. The vector of a text that is gone is kept until the
    /// new text is embedded, and dropped where the new text is too large for
    /// that.
    pub fn upsert(&mut self, key: &str, entry: Entry)
        requires
            old(self).wf(),
        ensures
            final(self).wf(),
            final(self)@.docs == old(self)@.docs.insert(key@, entry@),
            final(self)@.vectors == vectors_beside(old(self)@.vectors, key@, entry@),
            final(self)@.pending == old(self)@.pending.insert(key@),
            final(self).processed() == old(self).processed(),
    {
        let ghost start = self@;
        let ghost model = entry@;
        let small: bool = fits_embedding(entry.value.as_str());
        self.forget(key);
        self.learn(key, entry);
        if !small {
            drop_vector(&mut self.vectors, key);
        }
        add_key(&mut self.vectorless_keys, key.to_owned());
        proof {
            assert(self@.docs =~= start.docs.insert(key@, model));
            assert(self@.pending =~= start.pending.insert(key@));
        }
    }

    /// Takes an entry and its vector out of the index.
    pub fn delete(&mut self, key: &str)
        requires
            old(self).wf(),
        ensures
            final(self).wf(),
            final(self)@.docs == old(self)@.docs.remove(key@),
            final(self)@.vectors == old(self)@.vectors.remove(key@),
            final(self)@.pending == old(self)@.pending.remove(key@),
            final(self).processed() == old(self).processed(),
    {
        self.forget(key);
        drop_vector(&mut self.vectors, key);
    }

    /// Follows a change of the short-term layer. One that is numbered no higher
    /// than the last one followed was followed before or is out of date, and is
    /// dropped.
    pub fn apply(&mut self, event: L1Event) -> (r: Followed)
        requires
            old(self).wf(),
        ensures
            final(self).wf(),
            r == follows(old(self).processed(), event.seq_of()),
            match r {
                Followed::Dropped => *final(self) == *old(self),
                _ => final(self).processed() == event.seq_of() && match event {
                    L1Event::Upsert { key, entry, seq } => {
                        &&& final(self)@.docs == old(self)@.docs.insert(key@, entry@)
                        &&& final(self)@.vectors == vectors_beside(
                            old(self)@.vectors,
                            key@,
                            entry@,
                        )
                        &&& final(self)@.pending == old(self)@.pending.insert(key@)
                    },
                    L1Event::Delete { key, seq } => {
                        &&& final(self)@.docs == old(self)@.docs.remove(key@)
                        &&& final(self)@.vectors == old(self)@.vectors.remove(key@)
                        &&& final(self)@.pending == old(self)@.pending.remove(key@)
                    },
                },
            },
    {
        let last: u64 = self.processed_seq;
        match event {
            L1Event::Upsert { key, entry, seq } => {
                if seq <= last {
                    return Followed::Dropped;
                }
                self.upsert(key.as_str(), entry);
                self.processed_seq = seq;
                if seq - last > 1 {
                    Followed::AfterGap
                } else {
                    Followed::InTurn
                }
            },
            L1Event::Delete { key, seq } => {
                if seq <= last {
                    return Followed::Dropped;
                }
                self.delete(key.as_str());
                self.processed_seq = seq;
                if seq - last > 1 {
                    Followed::AfterGap
                } else {
                    Followed::InTurn
                }
            },
        }
    }
}

/// What became of a change that the index was told of.
#[derive(Clone, Copy, Debug, PartialEq, Eq, Structural)]
pub enum Followed {
    /// It is numbered no higher than the last one followed.
    Dropped,
    /// It is the next one.
    InTurn,
    /// Changes before it are missing: the index is to be built anew.
    AfterGap,
}

/// What becomes of a change by its number, after the one with the number
/// `processed`.
pub open spec fn follows(processed: u64, seq: u64) -> Followed {
    if seq <= processed {
        Followed::Dropped
    } else if seq == processed + 1 {
        Followed::InTurn
    } else {
        Followed::AfterGap
    }
}

/// A change that comes a second time is dropped, and so is one that comes after
/// a later one.
pub proof fn followed_change_is_dropped(processed: u64, seq: u64, again: u64)
    requires
        follows(processed, seq) != Followed::Dropped,
        again <= seq,
    ensures
        follows(seq, again) == Followed::Dropped,
{
}

/// The weight of the keyword score beside the similarity.
pub const BM25_WEIGHT: u64 = 600_000_000_000;

/// Similar entries that are looked at for one query.
pub const SEMANTIC_TOP_K: usize = 20;

/// Entries that are embedded for one query.
pub const EMBED_BATCH: usize = 50;

/// Size in bytes up to which a text is embedded.
pub const MAX_EMBED_SIZE: usize = 512_000;

/// What BM25 needs to know of one token of the query and one document.
#[derive(Clone, Copy, Debug, PartialEq, Eq, Structural)]
pub struct TermStat {
    /// The number of documents that hold the token.
    pub df: usize,
    /// How often the document holds the token.
    pub tf: usize,
}

/// A document that holds a token of the query.
#[derive(Debug)]
pub struct Candidate {
    pub key: String,
    /// The number of tokens of the document.
    pub doc_len: usize,
    /// The tokens of the query, in order.
    pub terms: Vec<TermStat>,
    /// How often the document is listed under the tokens of the query; the
    /// score of the document counts once for each time.
    pub hits: u128,
}

/// Whether a document holds a token of the query of a request, which admits it.
pub open spec fn is_match(
    docs: Map<Seq<char>, EntryModel>,
    key: Seq<char>,
    req: RecallRequest,
) -> bool {
    &&& docs.contains_key(key)
    &&& req.admits(docs[key])
    &&& shares_token(docs[key].value, req)
}

/// Whether a text holds a token of the query of a request.
pub open spec fn shares_token(value: Seq<char>, req: RecallRequest) -> bool {
    exists|j: int|
        0 <= j < tokens_of(req.query@).len() && tokens_of(value).contains(
            #[trigger] tokens_of(req.query@)[j],
        )
}

/// The sum of how often a document holds each token of the query.
pub open spec fn total_hits(doc: Seq<Seq<char>>, query: Seq<Seq<char>>) -> nat
    decreases query.len(),
{
    if query.len() == 0 {
        0
    } else {
        total_hits(doc, query.drop_last()) + doc.to_multiset().count(query.last())
    }
}

/// Whether a candidate describes its document for the query.
pub open spec fn describes(
    c: Candidate,
    docs: Map<Seq<char>, EntryModel>,
    query: Seq<Seq<char>>,
) -> bool {
    let doc = tokens_of(docs[c.key@].value);
    &&& c.doc_len == doc.len()
    &&& c.terms@.len() == query.len()
    &&& forall|j: int|
        0 <= j < query.len() ==> (#[trigger] c.terms@[j]).df == holders(docs, query[j]).len()
            && c.terms@[j].tf == doc.to_multiset().count(query[j])
    &&& c.hits == total_hits(doc, query)
}

/// How often a list holds a token.
fn count_token(tokens: &Vec<String>, token: &str) -> (r: usize)
    ensures
        r == texts(tokens@).to_multiset().count(token@),
        r <= tokens@.len(),
{
    let n: usize = tokens.len();
    let mut r: usize = 0;
    let ghost all = texts(tokens@);
    proof {
        broadcast use vstd::seq_lib::group_to_multiset_ensures;

        assert(all.take(0) =~= Seq::empty());
    }
    for i in 0..n
        invariant
            n == tokens@.len(),
            all == texts(tokens@),
            r <= i,
            r == all.take(i as int).to_multiset().count(token@),
    {
        proof {
            assert(all.take(i + 1) =~= all.take(i as int).push(tokens@[i as int]@));
            lemma_count_push(all.take(i as int), tokens@[i as int]@, token@);
        }
        if same_str(tokens[i].as_str(), token) {
            r = r + 1;
        }
    }
    proof {
        assert(all.take(n as int) =~= all);
    }
    r
}

impl L2 {
    /// What BM25 needs to know of the document under `key`.
    fn describe(&self, key: &str, entry: &Entry, query: &Vec<String>) -> (r: Candidate)
        requires
            self.wf(),
            self@.docs.contains_key(key@),
            self@.docs[key@] == entry@,
        ensures
            r.key@ == key@,
            describes(r, self@.docs, texts(query@)),
    {
        let doc = Bm25State::tokenize(entry.value.as_str());
        let n: usize = query.len();
        let mut terms: Vec<TermStat> = Vec::new();
        let mut hits: u128 = 0;
        let ghost q = texts(query@);
        let ghost d = tokens_of(entry@.value);
        for i in 0..n
            invariant
                n == query@.len(),
                q == texts(query@),
                texts(doc@) == d,
                self.wf(),
                terms@.len() == i,
                forall|j: int|
                    0 <= j < i ==> (#[trigger] terms@[j]).df == holders(self@.docs, q[j]).len()
                        && terms@[j].tf == d.to_multiset().count(q[j]),
                hits == total_hits(d, q.take(i as int)),
                hits <= i * usize::MAX,
        {
            proof {
                assert(q.take(i + 1).drop_last() =~= q.take(i as int));
                assert(q.take(i + 1).last() == query@[i as int]@);
                assert(i * usize::MAX + usize::MAX == (i + 1) * usize::MAX) by (nonlinear_arith);
                assert((i + 1) * usize::MAX <= u128::MAX) by (nonlinear_arith)
                    requires
                        i < usize::MAX,
                        usize::MAX <= 0xffff_ffff_ffff_ffff,
                ;
            }
            let tf: usize = count_token(&doc, query[i].as_str());
            let df: usize = self.bm25.doc_freq(query[i].as_str());
            terms.push(TermStat { df, tf });
            hits = hits + tf as u128;
        }
        proof {
            assert(q.take(n as int) =~= q);
            assert(texts(doc@).len() == doc@.len());
        }
        Candidate { key: key.to_owned(), doc_len: doc.len(), terms, hits }
    }

    /// The documents that a request admits and that hold a token of its query,
    /// each once, with what BM25 needs to know of them.
    pub fn candidates(&self, req: &RecallRequest) -> (r: Vec<Candidate>)
        requires
            self.wf(),
        ensures
            forall|i: int|
                0 <= i < r@.len() ==> is_match(self@.docs, (#[trigger] r@[i]).key@, *req)
                    && describes(r@[i], self@.docs, tokens_of(req.query@)),
            forall|i: int, j: int|
                0 <= i < j < r@.len() ==> (#[trigger] r@[i]).key@ != (#[trigger] r@[j]).key@,
            forall|k: Seq<char>| #[trigger]
                is_match(self@.docs, k, *req) ==> exists|i: int|
                    0 <= i < r@.len() && (#[trigger] r@[i]).key@ == k,
    {
        let tokens = Bm25State::tokenize(req.query.as_str());
        let n: usize = tokens.len();
        let ghost q = tokens_of(req.query@);
        let mut seen: StringHashMap<usize> = StringHashMap::new();
        let mut r: Vec<Candidate> = Vec::new();
        for i in 0..n
            invariant
                n == tokens@.len(),
                texts(tokens@) == q,
                q == tokens_of(req.query@),
                self.wf(),
                forall|a: int|
                    0 <= a < r@.len() ==> is_match(
                        self@.docs,
                        (#[trigger] r@[a]).key@,
                        *req,
                    ) && describes(r@[a], self@.docs, q) && seen@.contains_key(r@[a].key@)
                        && seen@[r@[a].key@] == a,
                forall|k: Seq<char>| #[trigger]
                    seen@.contains_key(k) ==> seen@[k] < r@.len() && r@[seen@[k] as int].key@ == k,
                forall|b: int, k: Seq<char>|
                    0 <= b < i && #[trigger] posting(self@.postings, #[trigger] q[b]).contains(k)
                        && req.admits(self@.docs[k]) ==> seen@.contains_key(k),
        {
            let ghost tok = tokens@[i as int]@;
            let keys: Vec<String> = match get_posting(&self.keyword_index, tokens[i].as_str()) {
                Some(keys) => keys,
                None => Vec::new(),
            };
            proof {
                assert(texts(keys@) =~= posting(self@.postings, tok));
                assert(q[i as int] == tok);
            }
            let m: usize = keys.len();
            for j in 0..m
                invariant
                    m == keys@.len(),
                    n == tokens@.len(),
                    i < n,
                    texts(tokens@) == q,
                    q == tokens_of(req.query@),
                    q[i as int] == tok,
                    texts(keys@) == posting(self@.postings, tok),
                    self.wf(),
                    forall|a: int|
                        0 <= a < r@.len() ==> is_match(
                            self@.docs,
                            (#[trigger] r@[a]).key@,
                            *req,
                        ) && describes(r@[a], self@.docs, q) && seen@.contains_key(r@[a].key@)
                            && seen@[r@[a].key@] == a,
                    forall|k: Seq<char>| #[trigger]
                        seen@.contains_key(k) ==> seen@[k] < r@.len() && r@[seen@[k] as int].key@
                            == k,
                    forall|b: int, k: Seq<char>|
                        0 <= b < i && #[trigger] posting(
                            self@.postings,
                            #[trigger] q[b],
                        ).contains(k) && req.admits(self@.docs[k])
                            ==> seen@.contains_key(k),
                    forall|b: int|
                        0 <= b < j && req.admits(
                            self@.docs[(#[trigger] keys@[b])@],
                        ) ==> seen@.contains_key(keys@[b]@),
            {
                let key: &str = keys[j].as_str();
                proof {
                    assert(texts(keys@)[j as int] == key@);
                    assert(posting(self@.postings, tok).contains(key@));
                    lemma_count_contains(posting(self@.postings, tok), key@);
                    assert(posted(self@.postings, tok, key@) == occurrences(
                        self@.docs,
                        key@,
                        tok,
                    ));
                    lemma_count_contains(tokens_of(self@.docs[key@].value), tok);
                }
                if !seen.contains_key(key) {
                    match get_entry(&self.store, key) {
                        Some(entry) => {
                            if req.admits_entry(&*entry) {
                                let ghost before = r@;
                                let c = self.describe(key, &*entry, &tokens);
                                seen.insert(key.to_owned(), r.len());
                                r.push(c);
                                proof {
                                    assert(is_match(self@.docs, key@, *req)) by {
                                        assert(tokens_of(self@.docs[key@].value).contains(
                                            q[i as int],
                                        ));
                                    }
                                }
                            }
                        },
                        None => {},
                    }
                }
            }
            proof {
                assert forall|b: int, k: Seq<char>|
                    0 <= b < i + 1 && #[trigger] posting(
                        self@.postings,
                        #[trigger] q[b],
                    ).contains(k) && req.admits(
                        self@.docs[k],
                    ) implies seen@.contains_key(k) by {
                    if b == i {
                        let p = posting(self@.postings, tok).index_of(k);
                        assert(keys@[p]@ == texts(keys@)[p]);
                        assert(keys@[p]@ == k);
                    }
                }
            }
        }
        proof {
            assert forall|k: Seq<char>| #[trigger] is_match(
                self@.docs,
                k,
                *req,
            ) implies exists|i: int| 0 <= i < r@.len() && (#[trigger] r@[i]).key@ == k by {
                let j = choose|j: int|
                    0 <= j < q.len() && tokens_of(self@.docs[k].value).contains(#[trigger] q[j]);
                lemma_count_contains(tokens_of(self@.docs[k].value), q[j]);
                assert(posted(self@.postings, q[j], k) == occurrences(self@.docs, k, q[j]));
                lemma_count_contains(posting(self@.postings, q[j]), k);
                assert(texts(tokens@).len() == n);
                assert(seen@.contains_key(k));
                assert(r@[seen@[k] as int].key@ == k);
            }
        }
        r
    }
}

/// Whether the key of an item has a document that a request admits.
pub open spec fn held_by(
    docs: Map<Seq<char>, EntryModel>,
    req: RecallRequest,
) -> spec_fn((Seq<char>, u64)) -> bool {
    |x: (Seq<char>, u64)| docs.contains_key(x.0) && req.admits(docs[x.0])
}

/// The results for the items of a list.
pub open spec fn as_results(
    docs: Map<Seq<char>, EntryModel>,
    ranked: Seq<(Seq<char>, u64)>,
    from_layer: Seq<char>,
) -> Seq<ResultModel> {
    Seq::new(
        ranked.len(),
        |i: int| ResultModel { entry: docs[ranked[i].0], score: ranked[i].1, from_layer },
    )
}

/// The shares of the raw keyword scores, as raw scores.
pub open spec fn raw_shares_of(raw: Seq<(Seq<char>, i64)>) -> Seq<(Seq<char>, i64)> {
    Seq::new(raw.len(), |i: int| (raw[i].0, shares_of(raw)[i].1 as i64))
}

/// Whether `scored` is what the raw keyword scores, and the similarities where
/// there are any, come to.
pub open spec fn is_scoring(
    raw: Seq<(Seq<char>, i64)>,
    similar: Option<Seq<(Seq<char>, i64)>>,
    scored: Seq<(Seq<char>, u64)>,
) -> bool {
    match similar {
        Some(sim) => is_fusion(raw_shares_of(raw), sim, BM25_WEIGHT as int, scored),
        None => scored == shares_of(raw),
    }
}

/// The name of the way in which results were found.
pub open spec fn way_of(hybrid: bool) -> Seq<char> {
    if hybrid {
        "L2:Hybrid"@
    } else {
        "L2:BM25"@
    }
}

/// Whether `results` are the documents behind the scores that the request
/// admits, the best first, up to the limit.
pub open spec fn is_recall(
    docs: Map<Seq<char>, EntryModel>,
    req: RecallRequest,
    raw: Seq<(Seq<char>, i64)>,
    similar: Option<Seq<(Seq<char>, i64)>>,
    results: Seq<ResultModel>,
) -> bool {
    exists|scored: Seq<(Seq<char>, u64)>, ranked: Seq<(Seq<char>, u64)>|
        #![trigger is_scoring(raw, similar, scored), is_ranking(scored.filter(held_by(docs, req)), ranked)]
        is_scoring(raw, similar, scored) && is_ranking(scored.filter(held_by(docs, req)), ranked)
            && results == first_of(
            as_results(docs, ranked, way_of(similar is Some)),
            req.limit_of() as int,
        )
}

/// A list of similarities, as mathematical values.
pub open spec fn similar_of(v: Option<Vec<(String, i64)>>) -> Option<Seq<(Seq<char>, i64)>> {
    match v {
        Some(list) => Some(raw_of(list@)),
        None => None,
    }
}

impl L2 {
    /// The items of a list whose key has a document that the request admits.
    fn keep_held(&self, scored: &Vec<(String, u64)>, req: &RecallRequest) -> (r: Vec<
        (String, u64),
    >)
        ensures
            scored_of(r@) == scored_of(scored@).filter(held_by(self@.docs, *req)),
    {
        let n: usize = scored.len();
        let mut r: Vec<(String, u64)> = Vec::new();
        let ghost s = scored_of(scored@);
        let ghost pred = held_by(self@.docs, *req);
        proof {
            reveal(Seq::filter);
            assert(scored_of(r@) =~= s.take(0).filter(pred));
        }
        for i in 0..n
            invariant
                n == scored@.len(),
                s == scored_of(scored@),
                pred == held_by(self@.docs, *req),
                scored_of(r@) == s.take(i as int).filter(pred),
        {
            proof {
                assert(s.take(i + 1).drop_last() =~= s.take(i as int));
                assert(s.take(i + 1).last() == (scored@[i as int].0@, scored@[i as int].1));
                reveal(Seq::filter);
            }
            let held: bool = match get_entry(&self.store, scored[i].0.as_str()) {
                Some(entry) => req.admits_entry(&*entry),
                None => false,
            };
            if held {
                let ghost before = r@;
                r.push((scored[i].0.clone(), scored[i].1));
                proof {
                    assert(scored_of(r@) =~= scored_of(before).push(
                        (scored@[i as int].0@, scored@[i as int].1),
                    ));
                }
            }
        }
        proof {
            assert(s.take(n as int) =~= s);
        }
        r
    }

    /// The documents behind raw keyword scores, and similarities where there
    /// are any, that the request admits, the best first, up to its limit.
    pub fn recall(
        &self,
        req: &RecallRequest,
        raw: &Vec<(String, i64)>,
        similar: &Option<Vec<(String, i64)>>,
    ) -> (r: Vec<RecallResult>)
        ensures
            is_recall(
                self@.docs,
                *req,
                raw_of(raw@),
                similar_of(*similar),
                results_of(r@),
            ),
            forall|i: int| 0 <= i < r@.len() ==> req.admits((#[trigger] r@[i]).entry@),
    {
        let limit: usize = req.limit();
        let shares = normalise(raw);
        let (scored, way): (Vec<(String, u64)>, &str) = match similar {
            Some(list) => {
                let n: usize = shares.len();
                let mut again: Vec<(String, i64)> = Vec::new();
                for i in 0..n
                    invariant
                        n == shares@.len(),
                        forall|k: int|
                            0 <= k < shares@.len() ==> (#[trigger] shares@[k]).1 <= SCORE_ONE,
                        again@.len() == i,
                        forall|k: int|
                            0 <= k < i ==> (#[trigger] again@[k]).0@ == shares@[k].0@ && again@[k].1
                                == shares@[k].1 as i64,
                {
                    again.push((shares[i].0.clone(), shares[i].1 as i64));
                }
                proof {
                    let s = shares_of(raw_of(raw@));
                    let t = raw_shares_of(raw_of(raw@));
                    assert(s.len() == shares@.len());
                    assert forall|k: int| 0 <= k < t.len() implies raw_of(again@)[k]
                        == #[trigger] t[k] by {
                        assert(s[k] == scored_of(shares@)[k]);
                        assert(again@[k].0@ == shares@[k].0@);
                    }
                    assert(raw_of(again@) =~= t);
                }
                (hybrid_fuse(&again, list, BM25_WEIGHT), "L2:Hybrid")
            },
            None => (shares, "L2:BM25"),
        };
        let held = self.keep_held(&scored, req);
        let ranked = by_score(&held);
        let total: usize = ranked.len();
        let shown: usize = if total < limit {
            total
        } else {
            limit
        };
        let mut r: Vec<RecallResult> = Vec::new();
        let ghost sr = scored_of(ranked@);
        proof {
            let sh = scored_of(held@);
            assert(sh == scored_of(scored@).filter(held_by(self@.docs, *req)));
            assert forall|i: int| 0 <= i < sr.len() implies self@.docs.contains_key(
                (#[trigger] sr[i]).0,
            ) && req.admits(self@.docs[sr[i].0]) by {
                let order = choose|order: Seq<usize>| #[trigger]
                    crate::fusion::is_score_order(sh, order) && sr == crate::fusion::picked(
                        sh,
                        order,
                    );
                let x = sh[order[i] as int];
                assert(sr[i] == x);
                assert(sh.contains(x));
                crate::sort::lemma_filter_within(scored_of(scored@), held_by(self@.docs, *req), x);
            }
        }
        for i in 0..shown
            invariant
                shown <= total,
                total == ranked@.len(),
                sr == scored_of(ranked@),
                way@ == way_of(similar is Some),
                forall|k: int|
                    0 <= k < sr.len() ==> self@.docs.contains_key((#[trigger] sr[k]).0)
                        && req.admits(self@.docs[sr[k].0]),
                r@.len() == i,
                forall|k: int|
                    0 <= k < i ==> (#[trigger] r@[k])@ == (ResultModel {
                        entry: self@.docs[sr[k].0],
                        score: sr[k].1,
                        from_layer: way@,
                    }),
        {
            proof {
                assert(sr[i as int] == (ranked@[i as int].0@, ranked@[i as int].1));
                assert(self@.docs.contains_key(sr[i as int].0));
            }
            match get_entry(&self.store, ranked[i].0.as_str()) {
                Some(entry) => {
                    r.push(RecallResult::new((*entry).clone(), ranked[i].1, way));
                },
                None => {},
            }
        }
        proof {
            let sim = similar_of(*similar);
            assert(is_scoring(raw_of(raw@), sim, scored_of(scored@)));
            assert(results_of(r@) =~= first_of(
                as_results(self@.docs, sr, way_of(sim is Some)),
                limit as int,
            ));
            assert forall|i: int| 0 <= i < r@.len() implies req.admits(
                (#[trigger] r@[i]).entry@,
            ) by {
                assert(r@[i]@.entry == self@.docs[sr[i].0]);
            }
        }
        r
    }
}

/// Whether a text is small enough to be embedded.
pub open spec fn embeddable(text: Seq<char>) -> bool {
    vstd::utf8::encode_utf8(text).len() <= MAX_EMBED_SIZE
}

/// Whether the entry under a key is to be embedded: it has no vector, or it
/// changed since it got one, and it is small enough.
pub open spec fn needs_vector(index: Index, key: Seq<char>) -> bool {
    &&& index.docs.contains_key(key)
    &&& !index.vectors.contains_key(key) || index.pending.contains(key)
    &&& embeddable(index.docs[key].value)
}

/// The vectors once an entry is indexed under a key: all of them, but the one
/// under the key where the text of the entry is too large to be embedded.
pub open spec fn vectors_beside(
    vectors: Map<Seq<char>, Seq<u32>>,
    key: Seq<char>,
    entry: EntryModel,
) -> Map<Seq<char>, Seq<u32>> {
    if embeddable(entry.value) {
        vectors
    } else {
        vectors.remove(key)
    }
}

/// Whether a text is that of the document under a key.
pub open spec fn has_text(
    docs: Map<Seq<char>, EntryModel>,
    key: Seq<char>,
    text: Seq<char>,
) -> bool {
    docs.contains_key(key) && docs[key].value == text
}

/// The vectors that a search goes by: those of entries that did not change since
/// they were embedded.
pub open spec fn searchable(index: Index) -> Map<Seq<char>, Seq<u32>> {
    index.vectors.remove_keys(index.pending)
}

/// A search does not go by the vector of a text that was replaced, until the new
/// text is embedded; the vectors of all other entries stay.
pub proof fn replaced_text_is_not_searched(
    before: Index,
    after: Index,
    key: Seq<char>,
    entry: EntryModel,
    other: Seq<char>,
)
    requires
        after.vectors == vectors_beside(before.vectors, key, entry),
        after.pending == before.pending.insert(key),
    ensures
        !searchable(after).contains_key(key),
        other != key ==> searchable(after).contains_key(other) == searchable(before).contains_key(
            other,
        ),
        other != key && searchable(before).contains_key(other) ==> searchable(after)[other]
            == searchable(before)[other],
{
}

/// Whether the vector under a key is that of the text of the new documents: the
/// entry was embedded since it changed, and its text is the same.
pub open spec fn is_current(
    index: Index,
    docs: Map<Seq<char>, EntryModel>,
    key: Seq<char>,
) -> bool {
    &&& index.vectors.contains_key(key)
    &&& !index.pending.contains(key)
    &&& index.docs.contains_key(key)
    &&& docs.contains_key(key)
    &&& index.docs[key].value == docs[key].value
}

/// The documents that a list of entries makes: each under its key, a later one
/// in place of an earlier one.
pub open spec fn docs_from(entries: Seq<EntryModel>) -> Map<Seq<char>, EntryModel>
    decreases entries.len(),
{
    if entries.len() == 0 {
        Map::empty()
    } else {
        docs_from(entries.drop_last()).insert(entries.last().key, entries.last())
    }
}

/// A list of vectors, as mathematical values.
pub open spec fn vector_list(v: Seq<(String, Vec<u32>)>) -> Seq<(Seq<char>, Seq<u32>)> {
    v.map_values(|x: (String, Vec<u32>)| (x.0@, x.1@))
}

/// The vectors that a list adds: the finite ones, each under its key, a later
/// one in place of an earlier one.
pub open spec fn vectors_with(
    vectors: Map<Seq<char>, Seq<u32>>,
    list: Seq<(Seq<char>, Seq<u32>)>,
) -> Map<Seq<char>, Seq<u32>>
    decreases list.len(),
{
    if list.len() == 0 {
        vectors
    } else {
        let rest = vectors_with(vectors, list.drop_last());
        if finite_vector(list.last().1) {
            rest.insert(list.last().0, list.last().1)
        } else {
            rest
        }
    }
}

/// Whether all components of a vector are finite.
pub fn is_finite_vector(vector: &Vec<u32>) -> (r: bool)
    ensures
        r == finite_vector(vector@),
{
    let n: usize = vector.len();
    for i in 0..n
        invariant
            n == vector@.len(),
            forall|k: int| 0 <= k < i ==> finite_bits(#[trigger] vector@[k]),
    {
        if (vector[i] / 0x80_0000) % 256 == 255 {
            proof {
                assert(!finite_bits(vector@[i as int]));
            }
            return false;
        }
    }
    true
}

fn fits_embedding(text: &str) -> (r: bool)
    ensures
        r == embeddable(text@),
{
    text.as_bytes().len() <= MAX_EMBED_SIZE
}

impl L2 {
    /// The index over the given entries, after the change with the number
    /// `current_seq`, with the vectors that were kept for them.
    pub fn new(entries: Vec<Entry>, vectors: Vec<(String, Vec<u32>)>, current_seq: u64) -> (r: Self)
        ensures
            r.wf(),
            r.processed() == current_seq,
            r.is_keyed(),
            r@.docs == docs_from(crate::common::entries_of(entries@)),
            r@.vectors == vectors_with(Map::empty(), vector_list(vectors@)),
            r@.pending == Set::<Seq<char>>::empty(),
    {
        let mut r = Self::empty();
        let n: usize = entries.len();
        let ghost all = crate::common::entries_of(entries@);
        proof {
            assert(all.take(0) =~= Seq::empty());
        }
        for i in 0..n
            invariant
                n == entries@.len(),
                all == crate::common::entries_of(entries@),
                r.wf(),
                r.is_keyed(),
                r@.docs == docs_from(all.take(i as int)),
                r@.vectors == Map::<Seq<char>, Seq<u32>>::empty(),
                r@.pending == Set::<Seq<char>>::empty(),
        {
            let entry: Entry = entries[i].clone();
            let key = entry.key.clone();
            let ghost before = r@.docs;
            proof {
                assert(all.take(i + 1).drop_last() =~= all.take(i as int));
                assert(all.take(i + 1).last() == entry@);
            }
            r.forget(key.as_str());
            r.learn(key.as_str(), entry);
            proof {
                assert(r@.docs =~= before.insert(key@, entry@));
                assert(r@.pending =~= Set::<Seq<char>>::empty());
            }
        }
        proof {
            assert(all.take(n as int) =~= all);
        }
        r.load_vectors(vectors);
        r.processed_seq = current_seq;
        r
    }

    /// Takes over the finite vectors of a list.
    pub fn load_vectors(&mut self, vectors: Vec<(String, Vec<u32>)>)
        requires
            old(self).wf(),
        ensures
            final(self).wf(),
            final(self)@.docs == old(self)@.docs,
            final(self)@.vectors == vectors_with(old(self)@.vectors, vector_list(vectors@)),
            final(self)@.pending == old(self)@.pending,
            final(self).processed() == old(self).processed(),
    {
        let n: usize = vectors.len();
        let ghost all = vector_list(vectors@);
        proof {
            assert(all.take(0) =~= Seq::empty());
        }
        for i in 0..n
            invariant
                n == vectors@.len(),
                all == vector_list(vectors@),
                self.wf(),
                self@.docs == old(self)@.docs,
                self@.vectors == vectors_with(old(self)@.vectors, all.take(i as int)),
                self@.pending == old(self)@.pending,
                self.processed() == old(self).processed(),
        {
            proof {
                assert(all.take(i + 1).drop_last() =~= all.take(i as int));
                assert(all.take(i + 1).last() == (vectors@[i as int].0@, vectors@[i as int].1@));
            }
            if is_finite_vector(&vectors[i].1) {
                let key = vectors[i].0.clone();
                let vector = vectors[i].1.clone();
                proof {
                    assert(vector@ =~= vectors@[i as int].1@);
                }
                put_vector(&mut self.vectors, key, vector);
            }
        }
        proof {
            assert(all.take(n as int) =~= all);
        }
    }

    /// The index over the given entries, after the change with the number
    /// `current_seq`, built anew because changes are missing. The vectors of
    /// texts that are the same are kept.
    pub fn rebuilt(&self, entries: Vec<Entry>, current_seq: u64) -> (r: Self)
        requires
            self.wf(),
        ensures
            r.wf(),
            r.processed() == current_seq,
            r.is_keyed(),
            r@.docs == docs_from(crate::common::entries_of(entries@)),
            forall|k: Seq<char>| #[trigger]
                r@.vectors.contains_key(k) <==> is_current(self@, r@.docs, k),
            forall|k: Seq<char>| #[trigger]
                r@.vectors.contains_key(k) ==> r@.vectors[k] == self@.vectors[k],
            r@.pending == Set::<Seq<char>>::empty(),
    {
        let ghost docs = docs_from(crate::common::entries_of(entries@));
        let none: Vec<(String, Vec<u32>)> = Vec::new();
        let mut r = Self::new(entries, none, current_seq);
        proof {
            assert(vector_list(none@) =~= Seq::empty());
        }
        let list = list_vectors(&self.vectors);
        let n: usize = list.len();
        for i in 0..n
            invariant
                n == list@.len(),
                lists_vectors(list@, self@.vectors),
                self.wf(),
                r.wf(),
                r.is_keyed(),
                r.processed() == current_seq,
                r@.docs == docs,
                r@.pending == Set::<Seq<char>>::empty(),
                forall|k: Seq<char>| #[trigger]
                    r@.vectors.contains_key(k) <==> is_current(self@, docs, k) && exists|j: int|
                        0 <= j < i && (#[trigger] list@[j]).0@ == k,
                forall|k: Seq<char>| #[trigger]
                    r@.vectors.contains_key(k) ==> r@.vectors[k] == self@.vectors[k],
        {
            let ghost key = list@[i as int].0@;
            let ghost before = r@.vectors;
            proof {
                assert(self@.vectors.contains_key(key));
            }
            let same: bool = match (
                get_entry(&self.store, list[i].0.as_str()),
                get_entry(&r.store, list[i].0.as_str()),
            ) {
                (Some(old), Some(new)) => same_str(old.value.as_str(), new.value.as_str()),
                _ => false,
            };
            if same && !has_key(&self.vectorless_keys, list[i].0.as_str()) {
                let vector = list[i].1.clone();
                proof {
                    assert(vector@ =~= list@[i as int].1@);
                }
                put_vector(&mut r.vectors, list[i].0.clone(), vector);
            }
            proof {
                assert forall|k: Seq<char>| #[trigger]
                    r@.vectors.contains_key(k) <==> is_current(self@, docs, k) && exists|j: int|
                        0 <= j < i + 1 && (#[trigger] list@[j]).0@ == k by {
                    assert(before.contains_key(k) <==> is_current(self@, docs, k) && exists|
                        j: int,
                    | 0 <= j < i && (#[trigger] list@[j]).0@ == k);
                    assert(list@[i as int].0@ == key);
                }
            }
        }
        proof {
            assert forall|k: Seq<char>| #[trigger]
                r@.vectors.contains_key(k) <==> is_current(self@, r@.docs, k) by {
                if is_current(self@, docs, k) {
                    assert(self@.vectors.contains_key(k));
                }
            }
        }
        r
    }

    /// Whether the entry under a key is to be embedded.
    fn is_waiting(&self, key: &str, entry: &Entry) -> (r: bool)
        requires
            self@.docs.contains_key(key@),
            self@.docs[key@] == entry@,
        ensures
            r == needs_vector(self@, key@),
    {
        (!has_vector(&self.vectors, key) || has_key(&self.vectorless_keys, key)) && fits_embedding(
            entry.value.as_str(),
        )
    }

    /// Up to `batch` keys whose entries are to be embedded.
    pub fn keys_needing_vectors(&self, batch: usize) -> (r: Vec<String>)
        ensures
            r@.len() <= batch,
            texts(r@).no_duplicates(),
            forall|i: int| 0 <= i < r@.len() ==> needs_vector(self@, (#[trigger] r@[i])@),
            r@.len() < batch ==> forall|k: Seq<char>| #[trigger]
                needs_vector(self@, k) ==> texts(r@).contains(k),
    {
        let list = list_entries(&self.store);
        let n: usize = list.len();
        let mut r: Vec<String> = Vec::new();
        let mut i: usize = 0;
        let ghost mut places: Seq<int> = Seq::empty();
        while i < n && r.len() < batch
            invariant
                n == list@.len(),
                lists_all(list@, self@.docs),
                i <= n,
                r@.len() <= batch,
                places.len() == r@.len(),
                forall|a: int|
                    0 <= a < places.len() ==> 0 <= #[trigger] places[a] < i && r@[a]@
                        == list@[places[a]].0@ && needs_vector(self@, r@[a]@),
                forall|a: int, b: int|
                    0 <= a < b < places.len() ==> #[trigger] places[a] < #[trigger] places[b],
                forall|j: int|
                    0 <= j < i && needs_vector(self@, (#[trigger] list@[j]).0@) ==> exists|a: int|
                        0 <= a < places.len() && #[trigger] places[a] == j,
            decreases n - i,
        {
            let ghost before = places;
            let ghost rest = r@;
            proof {
                assert(self@.docs.contains_key(list@[i as int].0@));
            }
            if self.is_waiting(list[i].0.as_str(), &*list[i].1) {
                r.push(list[i].0.clone());
                proof {
                    places = places.push(i as int);
                    assert(places[before.len() as int] == i);
                    assert forall|a: int| 0 <= a < places.len() implies 0 <= #[trigger] places[a]
                        < i + 1 && r@[a]@ == list@[places[a]].0@ && needs_vector(
                        self@,
                        r@[a]@,
                    ) by {
                        if a < before.len() {
                            assert(places[a] == before[a]);
                            assert(r@[a] == rest[a]);
                        }
                    }
                }
            }
            proof {
                assert forall|j: int|
                    0 <= j < i + 1 && needs_vector(
                        self@,
                        (#[trigger] list@[j]).0@,
                    ) implies exists|a: int| 0 <= a < places.len() && #[trigger] places[a] == j by {
                    if j < i {
                        let a = choose|a: int| 0 <= a < before.len() && #[trigger] before[a] == j;
                        assert(places[a] == j);
                    }
                }
            }
            i = i + 1;
        }
        proof {
            let t = texts(r@);
            assert forall|a: int, b: int| 0 <= a < t.len() && 0 <= b < t.len() && a != b implies t[a]
                != t[b] by {
                let (x, y) = if a < b {
                    (a, b)
                } else {
                    (b, a)
                };
                assert(places[x] < places[y]);
                assert(list@[places[x]].0@ != list@[places[y]].0@);
            }
            assert forall|i: int| 0 <= i < r@.len() implies needs_vector(
                self@,
                (#[trigger] r@[i])@,
            ) by {
                assert(0 <= places[i]);
            }
            if r@.len() < batch {
                assert forall|k: Seq<char>| #[trigger] needs_vector(self@, k) implies t.contains(
                    k,
                ) by {
                    let j = choose|j: int| 0 <= j < list@.len() && (#[trigger] list@[j]).0@ == k;
                    assert(needs_vector(self@, list@[j].0@));
                    let a = choose|a: int| 0 <= a < places.len() && #[trigger] places[a] == j;
                    assert(t[a] == k);
                }
            }
        }
        r
    }

    /// The text to embed for a key, where its entry is still to be embedded.
    pub fn text_to_embed(&self, key: &str) -> (r: Option<String>)
        ensures
            match r {
                Some(text) => needs_vector(self@, key@) && text@ == self@.docs[key@].value,
                None => !needs_vector(self@, key@),
            },
    {
        match get_entry(&self.store, key) {
            Some(entry) => if self.is_waiting(key, &*entry) {
                Some(entry.value.clone())
            } else {
                None
            },
            None => None,
        }
    }

    /// Keeps the vector of the entry under a key, which is then no longer to
    /// be embedded.
    pub fn store_vector(&mut self, key: &str, vector: Vec<u32>)
        requires
            old(self).wf(),
            finite_vector(vector@),
        ensures
            final(self).wf(),
            final(self)@.docs == old(self)@.docs,
            final(self)@.vectors == old(self)@.vectors.insert(key@, vector@),
            final(self)@.pending == old(self)@.pending.remove(key@),
            !needs_vector(final(self)@, key@),
            final(self).processed() == old(self).processed(),
    {
        put_vector(&mut self.vectors, key.to_owned(), vector);
        drop_key(&mut self.vectorless_keys, key);
    }

    /// Keeps the vector of a text under a key, where this is still the text of
    /// the entry there. Otherwise nothing changes, and the entry stays to be
    /// embedded.
    pub fn keep_vector(&mut self, key: &str, text: &str, vector: Vec<u32>) -> (r: bool)
        requires
            old(self).wf(),
            finite_vector(vector@),
        ensures
            final(self).wf(),
            r == has_text(old(self)@.docs, key@, text@),
            final(self)@.docs == old(self)@.docs,
            r ==> final(self)@.vectors == old(self)@.vectors.insert(key@, vector@)
                && final(self)@.pending == old(self)@.pending.remove(key@),
            !r ==> *final(self) == *old(self),
            final(self).processed() == old(self).processed(),
    {
        let same: bool = match get_entry(&self.store, key) {
            Some(entry) => same_str(entry.value.as_str(), text),
            None => false,
        };
        if same {
            self.store_vector(key, vector);
        }
        same
    }

    /// The vectors that a search goes by, with their keys: those of entries that
    /// did not change since.
    pub fn current_vectors(&self) -> (r: Vec<(String, Vec<u32>)>)
        requires
            self.wf(),
        ensures
            lists_vectors(r@, searchable(self@)),
    {
        let list = list_vectors(&self.vectors);
        let n: usize = list.len();
        let mut r: Vec<(String, Vec<u32>)> = Vec::new();
        let ghost mut places: Seq<int> = Seq::empty();
        let ghost held = searchable(self@);
        for i in 0..n
            invariant
                n == list@.len(),
                lists_vectors(list@, self@.vectors),
                held == searchable(self@),
                places.len() == r@.len(),
                forall|a: int|
                    0 <= a < places.len() ==> 0 <= #[trigger] places[a] < i && r@[a].0@
                        == list@[places[a]].0@ && r@[a].1@ == list@[places[a]].1@
                        && held.contains_key(r@[a].0@),
                forall|a: int, b: int|
                    0 <= a < b < places.len() ==> #[trigger] places[a] < #[trigger] places[b],
                forall|j: int|
                    0 <= j < i && held.contains_key((#[trigger] list@[j]).0@) ==> exists|a: int|
                        0 <= a < places.len() && #[trigger] places[a] == j,
        {
            let ghost before = places;
            let ghost rest = r@;
            proof {
                assert(self@.vectors.contains_key(list@[i as int].0@));
            }
            if !has_key(&self.vectorless_keys, list[i].0.as_str()) {
                let vector = list[i].1.clone();
                proof {
                    assert(vector@ =~= list@[i as int].1@);
                }
                r.push((list[i].0.clone(), vector));
                proof {
                    places = places.push(i as int);
                    assert(places[before.len() as int] == i);
                    assert forall|a: int| 0 <= a < places.len() implies 0 <= #[trigger] places[a]
                        < i + 1 && r@[a].0@ == list@[places[a]].0@ && r@[a].1@
                        == list@[places[a]].1@ && held.contains_key(r@[a].0@) by {
                        if a < before.len() {
                            assert(places[a] == before[a]);
                            assert(r@[a] == rest[a]);
                        }
                    }
                }
            }
            proof {
                assert forall|j: int|
                    0 <= j < i + 1 && held.contains_key(
                        (#[trigger] list@[j]).0@,
                    ) implies exists|a: int| 0 <= a < places.len() && #[trigger] places[a] == j by {
                    if j < i {
                        let a = choose|a: int| 0 <= a < before.len() && #[trigger] before[a] == j;
                        assert(places[a] == j);
                    }
                }
            }
        }
        proof {
            let keys = Seq::new(r@.len(), |a: int| r@[a].0@);
            assert forall|a: int, b: int| 0 <= a < b < r@.len() implies (#[trigger] r@[a]).0@ != (
            #[trigger] r@[b]).0@ by {
                assert(places[a] < places[b]);
                assert(list@[places[a]].0@ != list@[places[b]].0@);
            }
            assert forall|k: Seq<char>| #[trigger] held.contains_key(k) implies exists|a: int|
                0 <= a < r@.len() && (#[trigger] r@[a]).0@ == k by {
                assert(self@.vectors.contains_key(k));
                let j = choose|j: int| 0 <= j < list@.len() && (#[trigger] list@[j]).0@ == k;
                let a = choose|a: int| 0 <= a < places.len() && #[trigger] places[a] == j;
                assert(r@[a].0@ == k);
            }
            assert forall|a: int| 0 <= a < r@.len() implies held.contains_key(
                (#[trigger] r@[a]).0@,
            ) && r@[a].1@ == held[r@[a].0@] by {
                assert(0 <= places[a]);
                assert(list@[places[a]].1@ == self@.vectors[list@[places[a]].0@]);
            }
            assert(keys.no_duplicates());
            keys.unique_seq_to_set();
            assert(keys.to_set() =~= held.dom()) by {
                assert forall|k: Seq<char>| keys.to_set().contains(k) <==> held.dom().contains(
                    k,
                ) by {
                    if held.contains_key(k) {
                        let a = choose|a: int| 0 <= a < r@.len() && (#[trigger] r@[a]).0@ == k;
                        assert(keys[a] == k);
                    }
                    if keys.contains(k) {
                        let a = keys.index_of(k);
                        assert(r@[a].0@ == k);
                    }
                }
            }
        }
        r
    }

    /// All vectors with their keys, also those of entries that changed since.
    pub fn all_vectors(&self) -> (r: Vec<(String, Vec<u32>)>)
        ensures
            lists_vectors(r@, self@.vectors),
    {
        list_vectors(&self.vectors)
    }

    /// The number of documents.
    pub fn len(&self) -> (r: usize)
        ensures
            r == self@.docs.len(),
    {
        count_entries(&self.store)
    }

    /// The number of vectors.
    pub fn vector_count(&self) -> (r: usize)
        ensures
            r == self@.vectors.len(),
    {
        count_vectors(&self.vectors)
    }

    /// The number of keys whose entry changed since it was embedded.
    pub fn pending_count(&self) -> (r: usize)
        ensures
            r == self@.pending.len(),
    {
        count_keys(&self.vectorless_keys)
    }

    /// The number of documents that the keyword statistics are over.
    pub fn doc_count(&self) -> (r: usize)
        requires
            self.wf(),
        ensures
            r == self@.docs.len(),
    {
        self.bm25.doc_count()
    }

    /// The number of tokens of all documents.
    pub fn total_len(&self) -> (r: u128)
        requires
            self.wf(),
        ensures
            r == total_tokens(self@.docs),
    {
        self.bm25.total_len()
    }

    /// What is wrong with this layer: nothing ever is.
    pub fn health_issue(&self) -> (r: Option<String>)
        ensures
            r is None,
    {
        None
    }
}

/// Indexing an entry under a new key and deleting it again restores the
/// documents, what is pending, all counts and how often every key is listed.
pub proof fn delete_undoes_upsert(
    before: L2,
    with: L2,
    after: L2,
    key: Seq<char>,
    entry: EntryModel,
)
    requires
        before.wf(),
        after.wf(),
        !before@.docs.contains_key(key),
        with@.docs == before@.docs.insert(key, entry),
        with@.pending == before@.pending.insert(key),
        after@.docs == with@.docs.remove(key),
        after@.pending == with@.pending.remove(key),
    ensures
        after@.docs == before@.docs,
        after@.pending == before@.pending,
        after.counts().docs() == before.counts().docs(),
        after.counts().total() == before.counts().total(),
        forall|t: Seq<char>| #[trigger] after.counts().freq(t) == before.counts().freq(t),
        forall|t: Seq<char>, k: Seq<char>| #[trigger]
            posted(after@.postings, t, k) == posted(before@.postings, t, k),
{
    assert(after@.docs =~= before@.docs);
    assert(after@.pending =~= before@.pending);
    counts_follow_from_documents(
        before@.docs,
        after.counts(),
        before.counts(),
        after@.postings,
        before@.postings,
    );
}

/// Following a write adds one document, or replaces the one under the key, and
/// touches no other; following a deletion takes one away where there is one.
pub proof fn change_touches_one_document(
    docs: Map<Seq<char>, EntryModel>,
    key: Seq<char>,
    entry: EntryModel,
    other: Seq<char>,
)
    requires
        docs.dom().finite(),
    ensures
        docs.insert(key, entry).len() == docs.len() + (if docs.contains_key(key) {
            0int
        } else {
            1
        }),
        docs.remove(key).len() == docs.len() - (if docs.contains_key(key) {
            1int
        } else {
            0
        }),
        other != key && docs.contains_key(other) ==> docs.insert(key, entry).contains_key(other)
            && docs.insert(key, entry)[other] == docs[other] && docs.remove(key)[other]
            == docs[other],
{
    assert(docs.insert(key, entry).dom() =~= docs.dom().insert(key));
    assert(docs.remove(key).dom() =~= docs.dom().remove(key));
}

/// Rebuilding the index from a list of entries is indexing them one by one: one
/// more entry in the list is one more entry indexed, and an entry under a new
/// key adds one document.
pub proof fn rebuilding_is_indexing_again(entries: Seq<EntryModel>, entry: EntryModel)
    ensures
        docs_from(entries.push(entry)) == docs_from(entries).insert(entry.key, entry),
        docs_from(entries).dom().finite(),
        docs_from(entries.push(entry)).len() == docs_from(entries).len() + (if docs_from(
            entries,
        ).contains_key(entry.key) {
            0int
        } else {
            1
        }),
    decreases entries.len(),
{
    assert(entries.push(entry).drop_last() =~= entries);
    if entries.len() > 0 {
        rebuilding_is_indexing_again(entries.drop_last(), entries.last());
        assert(entries.drop_last().push(entries.last()) =~= entries);
        assert(docs_from(entries).dom() =~= docs_from(entries.drop_last()).dom().insert(
            entries.last().key,
        ));
    } else {
        assert(docs_from(entries).dom() =~= Set::empty());
    }
    assert(docs_from(entries.push(entry)).dom() =~= docs_from(entries).dom().insert(entry.key));
}

/// An entry that was indexed is a match for every request that admits it and
/// shares a token with it, and its key is listed under each of its tokens.
pub proof fn indexed_entry_is_found(
    index: Index,
    key: Seq<char>,
    req: RecallRequest,
    j: int,
)
    requires
        index.wf(),
        index.docs.contains_key(key),
        req.admits(index.docs[key]),
        0 <= j < tokens_of(req.query@).len(),
        tokens_of(index.docs[key].value).contains(tokens_of(req.query@)[j]),
    ensures
        is_match(index.docs, key, req),
        posting(index.postings, tokens_of(req.query@)[j]).contains(key),
{
    let query = tokens_of(req.query@);
    lemma_count_contains(tokens_of(index.docs[key].value), query[j]);
    lemma_count_contains(posting(index.postings, query[j]), key);
    assert(posted(index.postings, query[j], key) == occurrences(index.docs, key, query[j]));
}

/// A document that has a keyword score or a similarity, and that the request
/// admits, is recalled unless the limit is reached.
pub proof fn scored_document_is_recalled(
    docs: Map<Seq<char>, EntryModel>,
    req: RecallRequest,
    raw: Seq<(Seq<char>, i64)>,
    similar: Option<Seq<(Seq<char>, i64)>>,
    results: Seq<ResultModel>,
    key: Seq<char>,
)
    requires
        is_recall(docs, req, raw, similar, results),
        results.len() < req.limit_of(),
        docs.contains_key(key),
        req.admits(docs[key]),
        (exists|i: int| 0 <= i < raw.len() && (#[trigger] raw[i]).0 == key) || (similar is Some
            && exists|i: int| 0 <= i < similar->0.len() && (#[trigger] similar->0[i]).0 == key),
    ensures
        exists|i: int| 0 <= i < results.len() && (#[trigger] results[i]).entry == docs[key],
{
    broadcast use vstd::seq_lib::group_filter_ensures;

    let (scored, ranked) = choose|scored: Seq<(Seq<char>, u64)>, ranked: Seq<(Seq<char>, u64)>|
        #![trigger is_scoring(raw, similar, scored), is_ranking(scored.filter(held_by(docs, req)), ranked)]
        is_scoring(raw, similar, scored) && is_ranking(scored.filter(held_by(docs, req)), ranked)
            && results == first_of(
            as_results(docs, ranked, way_of(similar is Some)),
            req.limit_of() as int,
        );
    let held = scored.filter(held_by(docs, req));
    let p = lemma_scored_place(raw, similar, scored, key);
    assert(held_by(docs, req)(scored[p]));
    assert(held.contains(scored[p]));
    ranking_keeps_items(held, ranked);
    assert(ranked.contains(scored[p]));
    let i = ranked.index_of(scored[p]);
    assert(results[i].entry == docs[key]);
}

/// Keyword recall gives no more results than there are scores.
pub proof fn recall_is_no_longer(
    docs: Map<Seq<char>, EntryModel>,
    req: RecallRequest,
    raw: Seq<(Seq<char>, i64)>,
    results: Seq<ResultModel>,
)
    requires
        is_recall(docs, req, raw, None, results),
    ensures
        results.len() <= raw.len(),
        results.len() <= req.limit_of(),
{
    let (scored, ranked) = choose|scored: Seq<(Seq<char>, u64)>, ranked: Seq<(Seq<char>, u64)>|
        #![trigger is_scoring(raw, None, scored), is_ranking(scored.filter(held_by(docs, req)), ranked)]
        is_scoring(raw, None, scored) && is_ranking(scored.filter(held_by(docs, req)), ranked)
            && results == first_of(as_results(docs, ranked, way_of(false)), req.limit_of() as int);
    ranking_falls(scored.filter(held_by(docs, req)), ranked);
    scored.lemma_filter_len(held_by(docs, req));
}

proof fn lemma_scored_place(
    raw: Seq<(Seq<char>, i64)>,
    similar: Option<Seq<(Seq<char>, i64)>>,
    scored: Seq<(Seq<char>, u64)>,
    key: Seq<char>,
) -> (p: int)
    requires
        is_scoring(raw, similar, scored),
        (exists|i: int| 0 <= i < raw.len() && (#[trigger] raw[i]).0 == key) || (similar is Some
            && exists|i: int| 0 <= i < similar->0.len() && (#[trigger] similar->0[i]).0 == key),
    ensures
        0 <= p < scored.len(),
        scored[p].0 == key,
{
    if exists|i: int| 0 <= i < raw.len() && (#[trigger] raw[i]).0 == key {
        let i = choose|i: int| 0 <= i < raw.len() && (#[trigger] raw[i]).0 == key;
        match similar {
            Some(_) => {
                assert(raw_shares_of(raw)[i].0 == key);
                choose|j: int| 0 <= j < scored.len() && (#[trigger] scored[j]).0 == key
            },
            None => {
                assert(shares_of(raw)[i].0 == key);
                i
            },
        }
    } else {
        let i = choose|i: int| 0 <= i < similar->0.len() && (#[trigger] similar->0[i]).0 == key;
        assert(similar->0[i].0 == key);
        choose|j: int| 0 <= j < scored.len() && (#[trigger] scored[j]).0 == key
    }
}

/// Keyword recall over the scores of the candidates gives matching documents
/// alone, each once, the best first, with scores up to one; and all of them
/// unless the limit is reached.
pub proof fn keyword_recall_finds_the_matches(
    docs: Map<Seq<char>, EntryModel>,
    req: RecallRequest,
    raw: Seq<(Seq<char>, i64)>,
    results: Seq<ResultModel>,
)
    requires
        docs_keyed(docs),
        raw_keys_differ(raw),
        forall|i: int| 0 <= i < raw.len() ==> is_match(docs, (#[trigger] raw[i]).0, req),
        forall|k: Seq<char>| #[trigger]
            is_match(docs, k, req) ==> exists|i: int| 0 <= i < raw.len() && (#[trigger] raw[i]).0 == k,
        is_recall(docs, req, raw, None, results),
    ensures
        results.len() <= req.limit_of(),
        forall|i: int|
            0 <= i < results.len() ==> {
                &&& is_match(docs, (#[trigger] results[i]).entry.key, req)
                &&& results[i].entry == docs[results[i].entry.key]
                &&& results[i].score <= SCORE_ONE
                &&& results[i].from_layer == "L2:BM25"@
            },
        forall|i: int, j: int|
            0 <= i < j < results.len() ==> (#[trigger] results[i]).score >= (
            #[trigger] results[j]).score && results[i].entry.key != results[j].entry.key,
        results.len() < req.limit_of() ==> forall|k: Seq<char>| #[trigger]
            is_match(docs, k, req) ==> exists|i: int|
                0 <= i < results.len() && (#[trigger] results[i]).entry == docs[k],
{
    let (scored, ranked) = choose|scored: Seq<(Seq<char>, u64)>, ranked: Seq<(Seq<char>, u64)>|
        #![trigger is_scoring(raw, None, scored), is_ranking(scored.filter(held_by(docs, req)), ranked)]
        is_scoring(raw, None, scored) && is_ranking(scored.filter(held_by(docs, req)), ranked)
            && results == first_of(as_results(docs, ranked, way_of(false)), req.limit_of() as int);
    assert(scored == shares_of(raw));
    lemma_filter_all(scored, held_by(docs, req));
    assert(keys_differ(scored)) by {
        assert forall|i: int, j: int| 0 <= i < j < scored.len() implies (#[trigger] scored[i]).0 != (
        #[trigger] scored[j]).0 by {
            assert(raw[i].0 != raw[j].0);
        }
    }
    ranking_keeps_items(scored, ranked);
    ranking_falls(scored, ranked);
    assert forall|i: int| 0 <= i < results.len() implies {
        &&& is_match(docs, (#[trigger] results[i]).entry.key, req)
        &&& results[i].entry == docs[results[i].entry.key]
        &&& results[i].score <= SCORE_ONE
        &&& results[i].from_layer == "L2:BM25"@
    } by {
        assert(results[i] == as_results(docs, ranked, way_of(false))[i]);
        assert(ranked.contains(ranked[i]));
        let p = scored.index_of(ranked[i]);
        shares_are_at_most_one(raw, p);
        assert(is_match(docs, raw[p].0, req));
    }
    assert forall|i: int, j: int| 0 <= i < j < results.len() implies (#[trigger] results[i]).score >= (
    #[trigger] results[j]).score && results[i].entry.key != results[j].entry.key by {
        assert(results[i] == as_results(docs, ranked, way_of(false))[i]);
        assert(results[j] == as_results(docs, ranked, way_of(false))[j]);
        assert(ranked[i].0 != ranked[j].0);
        assert(ranked.contains(ranked[i]) && ranked.contains(ranked[j]));
        let p = scored.index_of(ranked[i]);
        let q = scored.index_of(ranked[j]);
        assert(is_match(docs, raw[p].0, req) && is_match(docs, raw[q].0, req));
    }
    if results.len() < req.limit_of() {
        assert forall|k: Seq<char>| #[trigger] is_match(docs, k, req) implies exists|i: int|
            0 <= i < results.len() && (#[trigger] results[i]).entry == docs[k] by {
            let n = choose|n: int| 0 <= n < raw.len() && (#[trigger] raw[n]).0 == k;
            scored_document_is_recalled(docs, req, raw, None, results, k);
        }
    }
}

proof fn lemma_filter_all<A>(s: Seq<A>, pred: spec_fn(A) -> bool)
    requires
        forall|i: int| 0 <= i < s.len() ==> pred(#[trigger] s[i]),
    ensures
        s.filter(pred) == s,
    decreases s.len(),
{
    reveal(Seq::filter);
    if s.len() > 0 {
        let rest = s.drop_last();
        assert forall|i: int| 0 <= i < rest.len() implies pred(#[trigger] rest[i]) by {
            assert(rest[i] == s[i]);
        }
        lemma_filter_all(rest, pred);
        assert(pred(s[s.len() - 1]));
        assert(s =~= rest.push(s.last()));
    } else {
        assert(s.filter(pred) =~= s);
    }
}

/// What was deleted matches no request and is listed under no token.
pub proof fn deleted_entry_is_not_found(
    index: Index,
    key: Seq<char>,
    req: RecallRequest,
    token: Seq<char>,
)
    requires
        index.wf(),
        !index.docs.contains_key(key),
    ensures
        !is_match(index.docs, key, req),
        !posting(index.postings, token).contains(key),
{
    lemma_count_contains(posting(index.postings, token), key);
    assert(posted(index.postings, token, key) == occurrences(index.docs, key, token));
}

} // verus!
