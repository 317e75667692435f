//! What finding entries by keyword promises.

use crate::bm25::{
    is_cjk, is_token, lemma_run_ends, lemma_run_len, pairs_of, run_len, run_tokens, runs_of,
    tokens_of,
};
use crate::common::{EntryModel, RecallRequest, ResultModel};
use crate::l1::{keyword_results, keyword_score};
use crate::l2::{is_match, shares_token};
use crate::laws::text::parts_stand_at_places;
use crate::text::{alphanumeric, lowercase};
use vstd::prelude::*;

verus! {

proof fn lemma_run_len_is(s: Seq<char>, k: int)
    requires
        0 <= k <= s.len(),
        forall|i: int| 0 <= i < k ==> alphanumeric(#[trigger] s[i]),
        k < s.len() ==> !alphanumeric(s[k]),
    ensures
        run_len(s) == k,
    decreases s.len(),
{
    if k > 0 {
        let rest = s.skip(1);
        assert forall|i: int| 0 <= i < k - 1 implies alphanumeric(#[trigger] rest[i]) by {
            assert(rest[i] == s[i + 1]);
        }
        lemma_run_len_is(rest, k - 1);
        assert(alphanumeric(s[0]));
    }
}

proof fn lemma_run_is(s: Seq<char>) -> (k: int)
    ensures
        k == run_len(s),
        0 <= k <= s.len(),
        forall|i: int| 0 <= i < k ==> alphanumeric(#[trigger] s[i]),
        k < s.len() ==> !alphanumeric(s[k]),
    decreases s.len(),
{
    lemma_run_len(s);
    lemma_run_ends(s);
    if s.len() > 0 && alphanumeric(s[0]) {
        let rest = s.skip(1);
        let k = lemma_run_is(rest);
        assert forall|i: int| 0 <= i < k + 1 implies alphanumeric(#[trigger] s[i]) by {
            if i > 0 {
                assert(rest[i - 1] == s[i]);
            }
        }
    }
    run_len(s)
}

/// Every word of a text in small letters is a token of it: each longest
/// alphanumeric run of two characters or more, however long, and each such run
/// of one character that is not ASCII.
pub proof fn word_is_a_token(s: Seq<char>, i: int, j: int)
    requires
        0 <= i < j <= s.len(),
        forall|k: int| i <= k < j ==> alphanumeric(#[trigger] s[k]),
        i == 0 || !alphanumeric(s[i - 1]),
        j == s.len() || !alphanumeric(s[j]),
        j - i >= 2 || s[i] as u32 >= 128,
    ensures
        runs_of(s).contains(s.subrange(i, j)),
    decreases s.len(),
{
    let word = s.subrange(i, j);
    if i == 0 {
        assert forall|k: int| 0 <= k < j implies alphanumeric(#[trigger] s[k]) by {}
        lemma_run_len_is(s, j);
        assert(s.take(j) =~= word);
        assert(is_token(word)) by {
            assert(word[0] == s[0]);
        }
        assert(runs_of(s) == run_tokens(word) + runs_of(s.skip(j)));
        assert(runs_of(s)[0] == word);
    } else if !alphanumeric(s[0]) {
        let rest = s.skip(1);
        assert forall|k: int| i - 1 <= k < j - 1 implies alphanumeric(#[trigger] rest[k]) by {
            assert(rest[k] == s[k + 1]);
        }
        word_is_a_token(rest, i - 1, j - 1);
        assert(rest.subrange(i - 1, j - 1) =~= word);
    } else {
        let k = lemma_run_is(s);
        assert(k > 0) by {
            lemma_run_len(s.skip(1));
        }
        assert(k <= i - 1) by {
            if k > i - 1 {
                assert(alphanumeric(s[i - 1]));
            }
        }
        let rest = s.skip(k);
        assert forall|m: int| i - k <= m < j - k implies alphanumeric(#[trigger] rest[m]) by {
            assert(rest[m] == s[m + k]);
        }
        word_is_a_token(rest, i - k, j - k);
        assert(rest.subrange(i - k, j - k) =~= word);
        let m = runs_of(rest).index_of(word);
        assert(runs_of(s)[run_tokens(s.take(k)).len() + m] == word);
    }
}

proof fn lemma_pairs_come_from(run: Seq<char>, t: int) -> (i: int)
    requires
        0 <= t < pairs_of(run).len(),
    ensures
        0 <= i < run.len() - 1,
        is_cjk(run[i]) && is_cjk(run[i + 1]),
        pairs_of(run)[t] == run.subrange(i, i + 2),
    decreases run.len(),
{
    let rest = run.skip(1);
    if is_cjk(run[0]) && is_cjk(run[1]) {
        if t == 0 {
            assert(run.take(2) =~= run.subrange(0, 2));
            0
        } else {
            let i = lemma_pairs_come_from(rest, t - 1);
            assert(rest.subrange(i, i + 2) =~= run.subrange(i + 1, i + 3));
            i + 1
        }
    } else {
        let i = lemma_pairs_come_from(rest, t);
        assert(rest.subrange(i, i + 2) =~= run.subrange(i + 1, i + 3));
        i + 1
    }
}

/// Every token stands in the text, in small letters, as one of its longest
/// alphanumeric runs, or as a pair of Chinese, Japanese or Korean characters.
pub proof fn token_stands_in_the_text(s: Seq<char>, t: int)
    requires
        0 <= t < runs_of(s).len(),
    ensures
        exists|i: int, j: int|
            {
                &&& 0 <= i < j <= s.len()
                &&& runs_of(s)[t] == #[trigger] s.subrange(i, j)
                &&& forall|k: int| i <= k < j ==> alphanumeric(#[trigger] s[k])
                &&& j - i >= 2 || s[i] as u32 >= 128
                &&& ((i == 0 || !alphanumeric(s[i - 1])) && (j == s.len() || !alphanumeric(s[j])))
                    || (j - i == 2 && is_cjk(s[i]) && is_cjk(s[i + 1]))
            },
    decreases s.len(),
{
    if !alphanumeric(s[0]) {
        let rest = s.skip(1);
        token_stands_in_the_text(rest, t);
        let (i, j) = choose|i: int, j: int|
            {
                &&& 0 <= i < j <= rest.len()
                &&& runs_of(rest)[t] == #[trigger] rest.subrange(i, j)
                &&& forall|k: int| i <= k < j ==> alphanumeric(#[trigger] rest[k])
                &&& j - i >= 2 || rest[i] as u32 >= 128
                &&& ((i == 0 || !alphanumeric(rest[i - 1])) && (j == rest.len() || !alphanumeric(
                    rest[j],
                ))) || (j - i == 2 && is_cjk(rest[i]) && is_cjk(rest[i + 1]))
            };
        lemma_moved(s, 1, i, j);
    } else {
        let k = lemma_run_is(s);
        lemma_run_len(s.skip(1));
        let run = s.take(k);
        let head = run_tokens(run);
        if t < head.len() {
            if t == 0 {
                assert(run =~= s.subrange(0, k));
                assert(run[0] == s[0]);
                assert(k >= 2 || s[0] as u32 >= 128);
                assert(runs_of(s)[t] == s.subrange(0, k));
            } else {
                let i = lemma_pairs_come_from(run, t - 1);
                assert(run.subrange(i, i + 2) =~= s.subrange(i, i + 2));
                assert(runs_of(s)[t] == s.subrange(i, i + 2));
            }
        } else {
            let rest = s.skip(k);
            let m = t - head.len();
            token_stands_in_the_text(rest, m);
            let (i, j) = choose|i: int, j: int|
                {
                    &&& 0 <= i < j <= rest.len()
                    &&& runs_of(rest)[m] == #[trigger] rest.subrange(i, j)
                    &&& forall|k: int| i <= k < j ==> alphanumeric(#[trigger] rest[k])
                    &&& j - i >= 2 || rest[i] as u32 >= 128
                    &&& ((i == 0 || !alphanumeric(rest[i - 1])) && (j == rest.len()
                        || !alphanumeric(rest[j]))) || (j - i == 2 && is_cjk(rest[i]) && is_cjk(
                        rest[i + 1],
                    ))
                };
            if i == 0 {
                assert(rest[0] == s[k]);
                assert(alphanumeric(rest[0]));
            }
            lemma_moved(s, k, i, j);
        }
    }
}

proof fn lemma_moved(s: Seq<char>, k: int, i: int, j: int)
    requires
        0 <= k <= s.len(),
        0 <= i < j <= s.skip(k).len(),
    ensures
        s.skip(k).subrange(i, j) == s.subrange(i + k, j + k),
        forall|m: int| i <= m < j ==> s.skip(k)[m] == #[trigger] s[m + k],
        (forall|m: int| i <= m < j ==> alphanumeric(#[trigger] s.skip(k)[m])) ==> (forall|m: int|
            i + k <= m < j + k ==> alphanumeric(#[trigger] s[m])),
{
    assert(s.skip(k).subrange(i, j) =~= s.subrange(i + k, j + k));
    if forall|m: int| i <= m < j ==> alphanumeric(#[trigger] s.skip(k)[m]) {
        assert forall|m: int| i + k <= m < j + k implies alphanumeric(#[trigger] s[m]) by {
            assert(s.skip(k)[m - k] == s[m]);
        }
    }
}

/// What is not alphanumeric sets tokens apart: the tokens of two texts in small
/// letters, with such a character between them, are the tokens of the one and
/// then those of the other.
pub proof fn other_characters_set_tokens_apart(a: Seq<char>, c: char, b: Seq<char>)
    requires
        !alphanumeric(c),
    ensures
        runs_of(a + seq![c] + b) == runs_of(a) + runs_of(b),
        runs_of(Seq::empty()) == Seq::<Seq<char>>::empty(),
    decreases a.len(),
{
    let s = a + seq![c] + b;
    if a.len() == 0 {
        assert(s.skip(1) =~= b);
        assert(runs_of(s) == runs_of(b));
        assert(runs_of(a) + runs_of(b) =~= runs_of(b));
    } else if !alphanumeric(a[0]) {
        other_characters_set_tokens_apart(a.skip(1), c, b);
        assert(s.skip(1) =~= a.skip(1) + seq![c] + b);
    } else {
        let k = lemma_run_is(a);
        lemma_run_len(a.skip(1));
        assert forall|i: int| 0 <= i < k implies alphanumeric(#[trigger] s[i]) by {
            assert(s[i] == a[i]);
        }
        assert(s[k] == (if k < a.len() {
            a[k]
        } else {
            c
        }));
        assert(alphanumeric(s[0]));
        lemma_run_len_is(s, k);
        other_characters_set_tokens_apart(a.skip(k), c, b);
        assert(s.skip(k) =~= a.skip(k) + seq![c] + b);
        assert(s.take(k) =~= a.take(k));
        assert(runs_of(s) =~= runs_of(a) + runs_of(b));
    }
}

proof fn lemma_no_pairs(run: Seq<char>)
    requires
        forall|i: int| 0 <= i < run.len() ==> !is_cjk(#[trigger] run[i]),
    ensures
        pairs_of(run) == Seq::<Seq<char>>::empty(),
    decreases run.len(),
{
    if run.len() >= 2 {
        let rest = run.skip(1);
        assert forall|i: int| 0 <= i < rest.len() implies !is_cjk(#[trigger] rest[i]) by {
            assert(rest[i] == run[i + 1]);
        }
        lemma_no_pairs(rest);
        assert(!is_cjk(run[0]));
    }
}

/// A word of two characters or more, none of them Chinese, Japanese or Korean, is
/// one token and no more; a single ASCII character is none.
pub proof fn plain_word_is_one_token(word: Seq<char>)
    requires
        forall|i: int| 0 <= i < word.len() ==> alphanumeric(#[trigger] word[i]) && !is_cjk(word[i]),
        word.len() > 0,
    ensures
        word.len() >= 2 || word[0] as u32 >= 128 ==> runs_of(word) == seq![word],
        word.len() == 1 && (word[0] as u32) < 128 ==> runs_of(word) == Seq::<Seq<char>>::empty(),
{
    let n = word.len() as int;
    lemma_run_len_is(word, n);
    assert(alphanumeric(word[0]));
    assert(word.take(n) =~= word);
    assert(word.skip(n) =~= Seq::empty());
    assert(runs_of(Seq::empty()) =~= Seq::<Seq<char>>::empty());
    lemma_no_pairs(word);
    assert(runs_of(word) == run_tokens(word) + runs_of(word.skip(n)));
    assert(runs_of(word) =~= run_tokens(word));
    assert(seq![word] + Seq::<Seq<char>>::empty() =~= seq![word]);
}

/// The characters that pairs are made of: ideographs, the syllables of Japanese,
/// and those of Korean, but no Latin, Greek, Cyrillic, Hebrew or Arabic letter.
pub proof fn scripts_without_spaces(c: char)
    ensures
        '\u{4e00}' <= c <= '\u{9fff}' || '\u{3400}' <= c <= '\u{4dbf}' ==> is_cjk(c),
        '\u{3041}' <= c <= '\u{30ff}' || '\u{ac00}' <= c <= '\u{d7a3}' ==> is_cjk(c),
        '\u{20000}' <= c <= '\u{2ffff}' ==> is_cjk(c),
        c <= '\u{10ff}' ==> !is_cjk(c),
{
}

proof fn lemma_pairs(run: Seq<char>)
    requires
        run.len() >= 1,
        forall|i: int| 0 <= i < run.len() ==> is_cjk(#[trigger] run[i]),
    ensures
        pairs_of(run) == Seq::new(
            (run.len() - 1) as nat,
            |k: int| run.subrange(k, k + 2),
        ),
    decreases run.len(),
{
    let all = Seq::new((run.len() - 1) as nat, |k: int| run.subrange(k, k + 2));
    if run.len() >= 2 {
        let rest = run.skip(1);
        assert forall|i: int| 0 <= i < rest.len() implies is_cjk(#[trigger] rest[i]) by {
            assert(rest[i] == run[i + 1]);
        }
        lemma_pairs(rest);
        assert(is_cjk(run[0]) && is_cjk(run[1]));
        assert(run.take(2) =~= run.subrange(0, 2));
        assert forall|k: int| 0 <= k < run.len() - 2 implies #[trigger] rest.subrange(k, k + 2)
            == run.subrange(k + 1, k + 3) by {
            assert(rest.subrange(k, k + 2) =~= run.subrange(k + 1, k + 3));
        }
        assert(pairs_of(run) =~= all);
    } else {
        assert(pairs_of(run) =~= all);
    }
}

/// A run of three or more Chinese, Japanese or Korean characters is a token, and
/// so is each pair of neighbours in it, once for each place at which it stands; a
/// shorter run is one token.
pub proof fn ideographs_are_paired(run: Seq<char>)
    requires
        run.len() >= 1,
        forall|i: int| 0 <= i < run.len() ==> alphanumeric(#[trigger] run[i]) && is_cjk(run[i]),
    ensures
        run.len() >= 3 ==> runs_of(run) == seq![run] + Seq::new(
            (run.len() - 1) as nat,
            |k: int| run.subrange(k, k + 2),
        ),
        run.len() <= 2 ==> runs_of(run) == seq![run],
{
    let n = run.len() as int;
    lemma_run_len_is(run, n);
    assert(alphanumeric(run[0]) && is_cjk(run[0]));
    assert(run.take(n) =~= run);
    assert(run.skip(n) =~= Seq::empty());
    assert(runs_of(Seq::empty()) =~= Seq::<Seq<char>>::empty());
    lemma_pairs(run);
    assert(runs_of(run) == run_tokens(run) + runs_of(run.skip(n)));
    assert(runs_of(run) =~= run_tokens(run));
}

/// The tokens of a text are those of the text in small letters.
pub proof fn letters_of_any_case_are_the_same_token(a: Seq<char>, b: Seq<char>)
    requires
        lowercase(a) == lowercase(b),
    ensures
        tokens_of(a) == tokens_of(b),
        tokens_of(a) == runs_of(lowercase(a)),
{
}

/// A document that holds a word is found by the query made of that word alone,
/// in letters of any case, where the request admits it.
pub proof fn document_is_found_by_its_words(
    docs: Map<Seq<char>, EntryModel>,
    key: Seq<char>,
    req: RecallRequest,
    i: int,
    j: int,
)
    requires
        docs.contains_key(key),
        req.admits(docs[key]),
        ({
            let s = lowercase(docs[key].value);
            &&& 0 <= i && i + 2 <= j <= s.len()
            &&& forall|k: int| i <= k < j ==> alphanumeric(#[trigger] s[k])
            &&& i == 0 || !alphanumeric(s[i - 1])
            &&& j == s.len() || !alphanumeric(s[j])
            &&& lowercase(req.query@) == s.subrange(i, j)
        }),
    ensures
        is_match(docs, key, req),
{
    let s = lowercase(docs[key].value);
    let q = lowercase(req.query@);
    word_is_a_token(s, i, j);
    assert forall|k: int| 0 <= k < q.len() implies alphanumeric(#[trigger] q[k]) by {
        assert(q[k] == s[i + k]);
    }
    word_is_a_token(q, 0, q.len() as int);
    assert(q.subrange(0, q.len() as int) =~= q);
    let t = tokens_of(req.query@).index_of(q);
    assert(tokens_of(docs[key].value).contains(tokens_of(req.query@)[t]));
    assert(shares_token(docs[key].value, req));
}

/// A document matches a query only where a run of its text, or a pair of
/// characters of it, is one of the query too.
pub proof fn match_shares_a_token(
    docs: Map<Seq<char>, EntryModel>,
    key: Seq<char>,
    req: RecallRequest,
)
    ensures
        is_match(docs, key, req) <==> docs.contains_key(key) && req.admits(docs[key]) && exists|
            token: Seq<char>,
        | #[trigger]
            tokens_of(docs[key].value).contains(token) && tokens_of(req.query@).contains(token),
{
    let q = tokens_of(req.query@);
    if docs.contains_key(key) && exists|token: Seq<char>| #[trigger]
        tokens_of(docs[key].value).contains(token) && q.contains(token) {
        let token = choose|token: Seq<char>| #[trigger]
            tokens_of(docs[key].value).contains(token) && q.contains(token);
        let j = q.index_of(token);
        assert(tokens_of(docs[key].value).contains(q[j]));
        assert(shares_token(docs[key].value, req));
    }
    if is_match(docs, key, req) {
        let j = choose|j: int|
            0 <= j < q.len() && tokens_of(docs[key].value).contains(#[trigger] q[j]);
        assert(q.contains(q[j]));
    }
}

/// Whether a text, in small letters, stands at some place of another.
pub open spec fn stands_in(text: Seq<char>, query: Seq<char>) -> bool {
    exists|i: int|
        0 <= i && i + query.len() <= text.len() && #[trigger] text.subrange(i, i + query.len())
            == query
}

/// Short-term memory finds an entry exactly where the query stands at some place
/// of its key or of its text, all in small letters; it scores 0.8 where the query
/// stands in the key and 0.5 otherwise, and the entries keep their order.
pub proof fn keyword_search_finds_what_holds_the_query(
    entries: Seq<EntryModel>,
    query: Seq<char>,
)
    ensures
        forall|j: int|
            0 <= j < entries.len() && (stands_in(lowercase((#[trigger] entries[j]).key), query)
                || stands_in(lowercase(entries[j].value), query)) ==> exists|r: int|
                0 <= r < keyword_results(entries, query).len() && (#[trigger] keyword_results(
                    entries,
                    query,
                )[r]).entry == entries[j],
        forall|r: int|
            0 <= r < keyword_results(entries, query).len() ==> {
                let found = #[trigger] keyword_results(entries, query)[r];
                &&& entries.contains(found.entry)
                &&& found.from_layer == "L1"@
                &&& stands_in(lowercase(found.entry.key), query) ==> found.score
                    == 800_000_000_000
                &&& !stands_in(lowercase(found.entry.key), query) ==> found.score
                    == 500_000_000_000 && stands_in(lowercase(found.entry.value), query)
            },
        keyword_results(entries, query).map_values(|r: ResultModel| r.entry) == entries.filter(
            |e: EntryModel|
                stands_in(lowercase(e.key), query) || stands_in(lowercase(e.value), query),
        ),
    decreases entries.len(),
{
    let results = keyword_results(entries, query);
    let entry_in = |r: ResultModel| r.entry;
    let holds = |e: EntryModel|
        stands_in(lowercase(e.key), query) || stands_in(lowercase(e.value), query);
    reveal(Seq::filter);
    if entries.len() > 0 {
        let rest = entries.drop_last();
        let last = entries[entries.len() - 1];
        let before = keyword_results(rest, query);
        keyword_search_finds_what_holds_the_query(rest, query);
        parts_stand_at_places(lowercase(last.key), query);
        parts_stand_at_places(lowercase(last.value), query);
        assert(keyword_score(last, query) is Some <==> holds(last));
        assert forall|j: int|
            0 <= j < entries.len() && (stands_in(lowercase((#[trigger] entries[j]).key), query)
                || stands_in(lowercase(entries[j].value), query)) implies exists|r: int|
            0 <= r < results.len() && (#[trigger] results[r]).entry == entries[j] by {
            if j < rest.len() {
                assert(rest[j] == entries[j]);
                let r = choose|r: int|
                    0 <= r < before.len() && (#[trigger] before[r]).entry == rest[j];
                assert(results[r] == before[r]);
            } else {
                assert(results[results.len() - 1].entry == last);
            }
        }
        assert forall|r: int| 0 <= r < results.len() implies ({
            let found = #[trigger] results[r];
            &&& entries.contains(found.entry)
            &&& found.from_layer == "L1"@
            &&& stands_in(lowercase(found.entry.key), query) ==> found.score == 800_000_000_000
            &&& !stands_in(lowercase(found.entry.key), query) ==> found.score
                == 500_000_000_000 && stands_in(lowercase(found.entry.value), query)
        }) by {
            if r < before.len() {
                assert(results[r] == before[r]);
                let k = rest.index_of(before[r].entry);
                assert(entries[k] == before[r].entry);
            } else {
                assert(entries[entries.len() - 1] == results[r].entry);
            }
        }
        assert(results.map_values(entry_in) =~= entries.filter(holds)) by {
            assert(before.map_values(entry_in) == rest.filter(holds));
        }
    } else {
        assert(results.map_values(entry_in) =~= entries.filter(holds));
    }
}

} // verus!
