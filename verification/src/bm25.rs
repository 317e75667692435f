//! Keyword statistics for BM25 ranking.
//!
//! The ranking formula needs the number of documents, their mean length, and
//! for each token the number of documents that hold it. These counts are kept
//! here; the formula itself is evaluated in floating point by the caller.

use crate::text::{alphanumeric, chars_of, lemma_texts_push, lowercase, string_of, texts, width_of};
use vstd::hash_map::StringHashMap;
use vstd::prelude::*;
use vstd::slice::slice_subrange;
use vstd::string::*;

verus! {

broadcast use {vstd::hash_map::group_hash_map_axioms, vstd::slice::group_slice_axioms};

/// The length of the longest start of `s` that is alphanumeric.
pub open spec fn run_len(s: Seq<char>) -> int
    decreases s.len(),
{
    if s.len() == 0 || !alphanumeric(s[0]) {
        0
    } else {
        1 + run_len(s.skip(1))
    }
}

/// Whether an alphanumeric run is long enough for a token: at least two bytes
/// in UTF-8, so two characters or one that is not ASCII.
pub open spec fn is_token(run: Seq<char>) -> bool {
    run.len() >= 2 || (run.len() == 1 && width_of(run[0]) >= 2)
}

/// Whether a character belongs to a script that sets no spaces between words:
/// Chinese, Japanese or Korean.
pub open spec fn is_cjk(c: char) -> bool {
    ||| 0x1100 <= c as u32 <= 0x11ff
    ||| 0x2e80 <= c as u32 <= 0x9fff
    ||| 0xac00 <= c as u32 <= 0xd7ff
    ||| 0xf900 <= c as u32 <= 0xfaff
    ||| 0xff66 <= c as u32 <= 0xffdc
    ||| 0x2_0000 <= c as u32 <= 0x3_ffff
}

/// The pairs of neighbouring Chinese, Japanese or Korean characters of a run, in
/// order.
pub open spec fn pairs_of(run: Seq<char>) -> Seq<Seq<char>>
    decreases run.len(),
{
    if run.len() < 2 {
        Seq::empty()
    } else if is_cjk(run[0]) && is_cjk(run[1]) {
        seq![run.take(2)] + pairs_of(run.skip(1))
    } else {
        pairs_of(run.skip(1))
    }
}

/// The tokens of an alphanumeric run: the run itself where it is long enough,
/// and the pairs in it where it is longer than a pair.
pub open spec fn run_tokens(run: Seq<char>) -> Seq<Seq<char>> {
    if !is_token(run) {
        Seq::empty()
    } else if run.len() <= 2 {
        seq![run]
    } else {
        seq![run] + pairs_of(run)
    }
}

/// The tokens of a text in small letters: those of its longest alphanumeric
/// runs, in order.
pub open spec fn runs_of(s: Seq<char>) -> Seq<Seq<char>>
    decreases s.len(),
{
    if s.len() == 0 {
        Seq::empty()
    } else if !alphanumeric(s[0]) {
        runs_of(s.skip(1))
    } else {
        let k = run_len(s);
        if 0 < k <= s.len() {
            run_tokens(s.take(k)) + runs_of(s.skip(k))
        } else {
            Seq::empty()
        }
    }
}

/// The tokens of a text.
pub open spec fn tokens_of(text: Seq<char>) -> Seq<Seq<char>> {
    runs_of(lowercase(text))
}

pub proof fn lemma_run_len(s: Seq<char>)
    ensures
        0 <= run_len(s) <= s.len(),
    decreases s.len(),
{
    if s.len() > 0 {
        lemma_run_len(s.skip(1));
    }
}

pub proof fn lemma_pair_of_run(run: Seq<char>, i: int)
    requires
        0 <= i < run.len() - 1,
        is_cjk(run[i]),
        is_cjk(run[i + 1]),
    ensures
        pairs_of(run).contains(seq![run[i], run[i + 1]]),
    decreases run.len(),
{
    let pair = seq![run[i], run[i + 1]];
    let rest = pairs_of(run.skip(1));
    if i == 0 {
        assert(run.take(2) =~= pair);
        assert(pairs_of(run)[0] == pair);
    } else {
        lemma_pair_of_run(run.skip(1), i - 1);
        let k = rest.index_of(pair);
        if is_cjk(run[0]) && is_cjk(run[1]) {
            assert(pairs_of(run)[k + 1] == pair);
        }
    }
}

pub proof fn lemma_run_ends(s: Seq<char>)
    ensures
        run_len(s) < s.len() ==> !alphanumeric(s[run_len(s)]),
    decreases s.len(),
{
    if s.len() > 0 && alphanumeric(s[0]) {
        lemma_run_ends(s.skip(1));
        lemma_run_len(s.skip(1));
    }
}

/// Two neighbouring Chinese, Japanese or Korean characters of a text in small
/// letters are a token of it.
pub proof fn pair_is_a_token(s: Seq<char>, i: int)
    requires
        0 <= i < s.len() - 1,
        alphanumeric(s[i]) && is_cjk(s[i]),
        alphanumeric(s[i + 1]) && is_cjk(s[i + 1]),
    ensures
        runs_of(s).contains(seq![s[i], s[i + 1]]),
    decreases s.len(),
{
    let pair = seq![s[i], s[i + 1]];
    if !alphanumeric(s[0]) {
        pair_is_a_token(s.skip(1), i - 1);
    } else {
        let k = run_len(s);
        lemma_run_len(s);
        lemma_run_len(s.skip(1));
        lemma_run_ends(s);
        let run = s.take(k);
        let rest = runs_of(s.skip(k));
        assert(runs_of(s) == run_tokens(run) + rest);
        if i + 1 < k {
            if k == 2 {
                assert(run =~= pair);
                assert(runs_of(s)[0] == pair);
            } else {
                lemma_pair_of_run(run, i);
                let j = pairs_of(run).index_of(pair);
                assert(run_tokens(run)[j + 1] == pair);
                assert(runs_of(s)[j + 1] == pair);
            }
        } else {
            assert(i != k - 1);
            pair_is_a_token(s.skip(k), i - k);
            let j = rest.index_of(pair);
            assert(runs_of(s)[run_tokens(run).len() + j] == pair);
        }
    }
}

/// A query that is a part of a text, two Chinese, Japanese or Korean characters
/// or more, shares a token with the text, though no space sets it apart. Both
/// are in small letters.
pub proof fn part_of_a_text_shares_a_token(s: Seq<char>, from: int, to: int)
    requires
        0 <= from,
        from + 2 <= to <= s.len(),
        forall|i: int| from <= i < to ==> alphanumeric(#[trigger] s[i]) && is_cjk(s[i]),
    ensures
        exists|token: Seq<char>| #[trigger]
            runs_of(s).contains(token) && runs_of(s.subrange(from, to)).contains(token),
{
    let q = s.subrange(from, to);
    assert(q[0] == s[from] && q[1] == s[from + 1]);
    pair_is_a_token(s, from);
    pair_is_a_token(q, 0);
    assert(runs_of(s).contains(seq![s[from], s[from + 1]]));
}

/// Whether a character is Chinese, Japanese or Korean.
fn cjk(c: char) -> (r: bool)
    ensures
        r == is_cjk(c),
{
    let n: u32 = c as u32;
    (0x1100 <= n && n <= 0x11ff) || (0x2e80 <= n && n <= 0x9fff) || (0xac00 <= n && n <= 0xd7ff)
        || (0xf900 <= n && n <= 0xfaff) || (0xff66 <= n && n <= 0xffdc) || (0x2_0000 <= n && n
        <= 0x3_ffff)
}

/// Adds the tokens of an alphanumeric run to a list.
fn push_run(r: &mut Vec<String>, run: &[char])
    ensures
        texts(final(r)@) == texts(old(r)@) + run_tokens(run@),
{
    let ghost before = texts(r@);
    let n: usize = run.len();
    if !long_enough(run) {
        proof {
            assert(before + Seq::<Seq<char>>::empty() =~= before);
        }
        return ;
    }
    let token = string_of(run);
    proof {
        lemma_texts_push(r@, token);
        assert(texts(r@).push(run@) =~= before + seq![run@]);
    }
    r.push(token);
    if n > 2 {
        let ghost all = before + seq![run@] + pairs_of(run@);
        proof {
            assert(run@.skip(0) =~= run@);
        }
        for i in 0..n - 1
            invariant
                n == run@.len(),
                n > 2,
                texts(r@) + pairs_of(run@.skip(i as int)) == all,
        {
            let ghost rest = run@.skip(i as int);
            proof {
                assert(rest.skip(1) =~= run@.skip(i + 1));
            }
            if cjk(run[i]) && cjk(run[i + 1]) {
                let pair = string_of(slice_subrange(run, i, i + 2));
                proof {
                    assert(pair@ =~= rest.take(2));
                    lemma_texts_push(r@, pair);
                    assert(texts(r@).push(pair@) + pairs_of(rest.skip(1)) =~= texts(r@) + (
                    seq![pair@] + pairs_of(rest.skip(1))));
                }
                r.push(pair);
            }
        }
        proof {
            assert(pairs_of(run@.skip(n - 1)) =~= Seq::empty());
            assert(texts(r@) + Seq::<Seq<char>>::empty() =~= texts(r@));
            assert(before + seq![run@] + pairs_of(run@) =~= before + run_tokens(run@));
        }
    }
}

/// Whether a run is long enough for a token.
fn long_enough(run: &[char]) -> (r: bool)
    ensures
        r == is_token(run@),
{
    run.len() >= 2 || (run.len() == 1 && run[0] as u32 >= 0x80)
}

/// One more item adds nothing but itself.
pub proof fn lemma_take_contains<A>(t: Seq<A>, i: int)
    requires
        0 <= i < t.len(),
    ensures
        forall|x: A| #[trigger] t.take(i + 1).contains(x) <==> t.take(i).contains(x) || x == t[i],
{
    assert forall|x: A| #[trigger] t.take(i + 1).contains(x) <==> t.take(i).contains(x) || x
        == t[i] by {
        if t.take(i).contains(x) {
            let k = t.take(i).index_of(x);
            assert(t.take(i + 1)[k] == x);
        }
        if x == t[i] {
            assert(t.take(i + 1)[i] == x);
        }
        if t.take(i + 1).contains(x) {
            let k = t.take(i + 1).index_of(x);
            if k < i {
                assert(t.take(i)[k] == x);
            }
        }
    }
}

/// The counts that BM25 ranking needs.
pub struct Bm25State {
    doc_count: usize,
    total_len: u128,
    doc_freq: StringHashMap<usize>,
}

impl Bm25State {
    /// The number of documents.
    pub closed spec fn docs(&self) -> nat {
        self.doc_count as nat
    }

    /// The number of tokens of all documents.
    pub closed spec fn total(&self) -> nat {
        self.total_len as nat
    }

    /// The number of documents that hold a token.
    pub closed spec fn freq(&self, token: Seq<char>) -> nat {
        if self.doc_freq@.contains_key(token) {
            self.doc_freq@[token] as nat
        } else {
            0
        }
    }

    /// Counts over no documents.
    pub fn new() -> (r: Self)
        ensures
            r.docs() == 0,
            r.total() == 0,
            forall|t: Seq<char>| r.freq(t) == 0,
    {
        Bm25State { doc_count: 0, total_len: 0, doc_freq: StringHashMap::new() }
    }

    /// The tokens of a text.
    pub fn tokenize(text: &str) -> (r: Vec<String>)
        ensures
            texts(r@) == tokens_of(text@),
    {
        let lower = text.to_lowercase();
        let chars = chars_of(lower.as_str());
        let s: &[char] = chars.as_slice();
        let n: usize = s.len();
        let mut r: Vec<String> = Vec::new();
        let mut i: usize = 0;
        proof {
            assert(s@.skip(0) =~= s@);
            assert(texts(r@) + runs_of(s@.skip(0)) =~= runs_of(s@));
        }
        while i < n
            invariant
                n == s@.len(),
                i <= n,
                texts(r@) + runs_of(s@.skip(i as int)) == runs_of(s@),
            decreases n - i,
        {
            let ghost rest = s@.skip(i as int);
            if !s[i].is_alphanumeric() {
                proof {
                    assert(rest.skip(1) =~= s@.skip(i + 1));
                }
                i = i + 1;
            } else {
                let mut j: usize = i;
                while j < n && s[j].is_alphanumeric()
                    invariant
                        n == s@.len(),
                        i <= j <= n,
                        rest == s@.skip(i as int),
                        run_len(rest) == j - i + run_len(s@.skip(j as int)),
                    decreases n - j,
                {
                    proof {
                        assert(s@.skip(j as int).skip(1) =~= s@.skip(j + 1));
                    }
                    j = j + 1;
                }
                let run = slice_subrange(s, i, j);
                let ghost before = r@;
                proof {
                    assert(run_len(s@.skip(j as int)) == 0);
                    lemma_run_len(rest.skip(1));
                    assert(run@ =~= rest.take(j - i));
                    assert(rest.skip(j - i) =~= s@.skip(j as int));
                }
                push_run(&mut r, run);
                proof {
                    assert(texts(r@) + runs_of(s@.skip(j as int)) =~= texts(before) + runs_of(
                        rest,
                    ));
                }
                i = j;
            }
        }
        proof {
            assert(s@.skip(i as int) =~= Seq::<char>::empty());
            assert(texts(r@) + Seq::<Seq<char>>::empty() =~= texts(r@));
        }
        r
    }

    /// The number of documents that hold a token.
    pub fn doc_freq(&self, token: &str) -> (r: usize)
        ensures
            r == self.freq(token@),
    {
        match self.doc_freq.get(token) {
            Some(n) => *n,
            None => 0,
        }
    }

    /// The number of documents.
    pub fn doc_count(&self) -> (r: usize)
        ensures
            r == self.docs(),
    {
        self.doc_count
    }

    /// The number of tokens of all documents.
    pub fn total_len(&self) -> (r: u128)
        ensures
            r == self.total(),
    {
        self.total_len
    }

    /// Counts a document in.
    pub fn update(&mut self, value: &str)
        requires
            old(self).docs() < usize::MAX,
            old(self).total() + tokens_of(value@).len() <= u128::MAX,
            forall|t: Seq<char>| #[trigger]
                tokens_of(value@).contains(t) ==> old(self).freq(t) < usize::MAX,
        ensures
            counted_in(*old(self), *final(self), value@),
    {
        let tokens = Self::tokenize(value);
        let n: usize = tokens.len();
        self.doc_count = self.doc_count + 1;
        self.total_len = self.total_len + n as u128;
        let mut seen: StringHashMap<bool> = StringHashMap::new();
        let ghost t = tokens_of(value@);
        proof {
            assert(texts(tokens@) =~= t);
        }
        for i in 0..n
            invariant
                n == tokens@.len(),
                texts(tokens@) == t,
                t == tokens_of(value@),
                forall|x: Seq<char>| #[trigger] t.contains(x) ==> old(self).freq(x) < usize::MAX,
                self.docs() == old(self).docs() + 1,
                self.total() == old(self).total() + t.len(),
                forall|x: Seq<char>| #[trigger]
                    seen@.contains_key(x) <==> t.take(i as int).contains(x),
                forall|x: Seq<char>| #[trigger]
                    self.freq(x) == old(self).freq(x) + (if t.take(i as int).contains(x) {
                        1nat
                    } else {
                        0nat
                    }),
        {
            let ghost tok = tokens@[i as int]@;
            let ghost before = *self;
            proof {
                assert(t[i as int] == tok);
                assert(t.contains(tok));
                lemma_take_contains(t, i as int);
            }
            if !seen.contains_key(tokens[i].as_str()) {
                let count: usize = self.doc_freq(tokens[i].as_str());
                seen.insert(tokens[i].clone(), true);
                self.doc_freq.insert(tokens[i].clone(), count + 1);
            }
            proof {
                assert forall|x: Seq<char>| #[trigger] self.freq(x) == old(self).freq(x) + (
                if t.take(i + 1).contains(x) {
                    1nat
                } else {
                    0nat
                }) by {
                    assert(before.freq(x) == old(self).freq(x) + (if t.take(i as int).contains(x) {
                        1nat
                    } else {
                        0nat
                    }));
                }
            }
        }
        proof {
            assert(t.take(n as int) =~= t);
        }
    }

    /// Counts a document out. Counts that are 0 stay 0.
    pub fn remove(&mut self, value: &str)
        ensures
            counted_out(*old(self), *final(self), value@),
    {
        if self.doc_count == 0 {
            return ;
        }
        let tokens = Self::tokenize(value);
        let n: usize = tokens.len();
        self.doc_count = self.doc_count - 1;
        self.total_len = self.total_len.saturating_sub(n as u128);
        let mut seen: StringHashMap<bool> = StringHashMap::new();
        let ghost t = tokens_of(value@);
        proof {
            assert(texts(tokens@) =~= t);
        }
        for i in 0..n
            invariant
                n == tokens@.len(),
                texts(tokens@) == t,
                self.docs() == old(self).docs() - 1,
                self.total() == (if old(self).total() >= t.len() {
                    old(self).total() - t.len()
                } else {
                    0
                }),
                forall|x: Seq<char>| #[trigger]
                    seen@.contains_key(x) <==> t.take(i as int).contains(x),
                forall|x: Seq<char>| #[trigger]
                    self.freq(x) == old(self).freq(x) - (if t.take(i as int).contains(x)
                        && old(self).freq(x) > 0 {
                        1int
                    } else {
                        0int
                    }),
        {
            let ghost tok = tokens@[i as int]@;
            let ghost before = *self;
            proof {
                assert(t[i as int] == tok);
                lemma_take_contains(t, i as int);
            }
            if !seen.contains_key(tokens[i].as_str()) {
                let count: usize = self.doc_freq(tokens[i].as_str());
                seen.insert(tokens[i].clone(), true);
                if count > 1 {
                    self.doc_freq.insert(tokens[i].clone(), count - 1);
                } else {
                    self.doc_freq.remove(tokens[i].as_str());
                }
            }
            proof {
                assert forall|x: Seq<char>| #[trigger] self.freq(x) == old(self).freq(x) - (
                if t.take(i + 1).contains(x) && old(self).freq(x) > 0 {
                    1int
                } else {
                    0int
                }) by {
                    assert(before.freq(x) == old(self).freq(x) - (if t.take(i as int).contains(x)
                        && old(self).freq(x) > 0 {
                        1int
                    } else {
                        0int
                    }));
                }
            }
        }
        proof {
            assert(t.take(n as int) =~= t);
        }
    }
}

/// Whether `after` is `before` with one more document.
pub open spec fn counted_in(before: Bm25State, after: Bm25State, value: Seq<char>) -> bool {
    &&& after.docs() == before.docs() + 1
    &&& after.total() == before.total() + tokens_of(value).len()
    &&& forall|t: Seq<char>| #[trigger]
        after.freq(t) == before.freq(t) + (if tokens_of(value).contains(t) {
            1nat
        } else {
            0nat
        })
}

/// Whether `after` is `before` with one document fewer. Counts that are 0 stay
/// 0, and where there is no document nothing changes.
pub open spec fn counted_out(before: Bm25State, after: Bm25State, value: Seq<char>) -> bool {
    if before.docs() == 0 {
        after == before
    } else {
        &&& after.docs() == before.docs() - 1
        &&& after.total() == (if before.total() >= tokens_of(value).len() {
            before.total() - tokens_of(value).len()
        } else {
            0
        })
        &&& forall|t: Seq<char>| #[trigger]
            after.freq(t) == before.freq(t) - (if tokens_of(value).contains(t) && before.freq(t)
                > 0 {
                1int
            } else {
                0int
            })
    }
}

/// Counting a document out undoes counting it in.
pub proof fn counting_out_undoes_counting_in(
    before: Bm25State,
    with: Bm25State,
    after: Bm25State,
    value: Seq<char>,
)
    requires
        counted_in(before, with, value),
        counted_out(with, after, value),
    ensures
        after.docs() == before.docs(),
        after.total() == before.total(),
        forall|t: Seq<char>| #[trigger] after.freq(t) == before.freq(t),
{
    assert forall|t: Seq<char>| #[trigger] after.freq(t) == before.freq(t) by {
        assert(with.freq(t) == before.freq(t) + (if tokens_of(value).contains(t) {
            1nat
        } else {
            0nat
        }));
    }
}

} // verus!
