//! Turning raw scores into a ranking.
//!
//! Raw scores are whole numbers of the part that `SCORE_ONE` of them make one.
//! Keyword scores are put in relation to the best of them; similarities are
//! cut to the range from 0 to one; both are weighted and added up by key.

use crate::common::SCORE_ONE;
use crate::sort::{is_order, ordered, Rank, Ranked};
use vstd::hash_map::StringHashMap;
use vstd::prelude::*;
use vstd::string::*;

verus! {

broadcast use vstd::hash_map::group_hash_map_axioms;

/// The least that a best keyword score is taken for: a millionth of one.
pub const LEAST_BEST: i64 = 1_000_000;

/// A list of keys with raw scores, as mathematical values.
pub open spec fn raw_of(v: Seq<(String, i64)>) -> Seq<(Seq<char>, i64)> {
    v.map_values(|x: (String, i64)| (x.0@, x.1))
}

/// A list of keys with scores, as mathematical values.
pub open spec fn scored_of(v: Seq<(String, u64)>) -> Seq<(Seq<char>, u64)> {
    v.map_values(|x: (String, u64)| (x.0@, x.1))
}

/// The best of the raw scores, and at least a millionth of one.
pub open spec fn best_of(raw: Seq<(Seq<char>, i64)>) -> int
    decreases raw.len(),
{
    if raw.len() == 0 {
        LEAST_BEST as int
    } else {
        let rest = best_of(raw.drop_last());
        if raw.last().1 > rest {
            raw.last().1 as int
        } else {
            rest
        }
    }
}

/// A raw score in relation to the best one: 0 for a score that is not
/// positive, one for the best.
pub open spec fn share_of(score: i64, best: int) -> int {
    if score <= 0 {
        0
    } else {
        score * SCORE_ONE / best
    }
}

/// A raw score cut to the range from 0 to one.
pub open spec fn cut_of(score: i64) -> int {
    if score <= 0 {
        0
    } else if score >= SCORE_ONE {
        SCORE_ONE as int
    } else {
        score as int
    }
}

/// A score times a weight.
pub open spec fn weighted(score: int, weight: int) -> int {
    score * weight / (SCORE_ONE as int)
}

/// Each key with the share of its raw score in the best one.
pub open spec fn shares_of(raw: Seq<(Seq<char>, i64)>) -> Seq<(Seq<char>, u64)> {
    Seq::new(raw.len(), |i: int| (raw[i].0, share_of(raw[i].1, best_of(raw)) as u64))
}

/// What the keyword scores of a key add up to.
pub open spec fn keyword_part(
    raw: Seq<(Seq<char>, i64)>,
    best: int,
    weight: int,
    key: Seq<char>,
) -> int
    decreases raw.len(),
{
    if raw.len() == 0 {
        0
    } else {
        keyword_part(raw.drop_last(), best, weight, key) + (if raw.last().0 == key {
            weighted(share_of(raw.last().1, best), weight)
        } else {
            0
        })
    }
}

/// What the similarities of a key add up to.
pub open spec fn similarity_part(raw: Seq<(Seq<char>, i64)>, weight: int, key: Seq<char>) -> int
    decreases raw.len(),
{
    if raw.len() == 0 {
        0
    } else {
        similarity_part(raw.drop_last(), weight, key) + (if raw.last().0 == key {
            weighted(cut_of(raw.last().1), weight)
        } else {
            0
        })
    }
}

/// Whether a list has an item for the key.
pub open spec fn names(raw: Seq<(Seq<char>, i64)>, key: Seq<char>) -> bool {
    exists|i: int| 0 <= i < raw.len() && (#[trigger] raw[i]).0 == key
}

/// A sum as a score of 64 bits; what is beyond them is cut off.
pub open spec fn as_score(sum: int) -> u64 {
    if sum > u64::MAX {
        u64::MAX
    } else {
        sum as u64
    }
}

/// The score of a key over both lists.
pub open spec fn fused_score(
    keyword: Seq<(Seq<char>, i64)>,
    similar: Seq<(Seq<char>, i64)>,
    weight: int,
    key: Seq<char>,
) -> u64 {
    as_score(
        keyword_part(keyword, best_of(keyword), weight, key) + similarity_part(
            similar,
            SCORE_ONE - weight,
            key,
        ),
    )
}

/// Whether the scores of a list fall.
pub open spec fn falling(scored: Seq<(Seq<char>, u64)>) -> bool {
    forall|i: int, j: int|
        0 <= i < j < scored.len() ==> (#[trigger] scored[i]).1 >= (#[trigger] scored[j]).1
}

/// Whether no key of a list comes twice.
pub open spec fn keys_differ(scored: Seq<(Seq<char>, u64)>) -> bool {
    forall|i: int, j: int|
        0 <= i < j < scored.len() ==> (#[trigger] scored[i]).0 != (#[trigger] scored[j]).0
}

/// Whether `fused` holds each key of either list once, with its score over
/// both, and the highest score first.
pub open spec fn is_fusion(
    keyword: Seq<(Seq<char>, i64)>,
    similar: Seq<(Seq<char>, i64)>,
    weight: int,
    fused: Seq<(Seq<char>, u64)>,
) -> bool {
    &&& keys_differ(fused)
    &&& falling(fused)
    &&& forall|i: int|
        0 <= i < fused.len() ==> {
            &&& names(keyword, (#[trigger] fused[i]).0) || names(similar, fused[i].0)
            &&& fused[i].1 == fused_score(keyword, similar, weight, fused[i].0)
        }
    &&& forall|i: int|
        0 <= i < keyword.len() ==> exists|j: int|
            0 <= j < fused.len() && (#[trigger] fused[j]).0 == (#[trigger] keyword[i]).0
    &&& forall|i: int|
        0 <= i < similar.len() ==> exists|j: int|
            0 <= j < fused.len() && (#[trigger] fused[j]).0 == (#[trigger] similar[i]).0
}

proof fn lemma_best(raw: Seq<(Seq<char>, i64)>, i: int)
    requires
        0 <= i < raw.len(),
    ensures
        raw[i].1 <= best_of(raw),
    decreases raw.len(),
{
    if i < raw.len() - 1 {
        lemma_best(raw.drop_last(), i);
        assert(raw.drop_last()[i] == raw[i]);
    }
}

proof fn lemma_best_range(raw: Seq<(Seq<char>, i64)>)
    ensures
        LEAST_BEST <= best_of(raw) <= i64::MAX,
    decreases raw.len(),
{
    if raw.len() > 0 {
        lemma_best_range(raw.drop_last());
    }
}

/// A share is at most one, and the share of the best score is one.
pub proof fn shares_are_relative(score: i64, best: int)
    requires
        score <= best,
        best > 0,
    ensures
        0 <= share_of(score, best) <= SCORE_ONE,
        score == best ==> share_of(score, best) == SCORE_ONE,
{
    if score > 0 {
        assert(0 <= score * SCORE_ONE / best <= SCORE_ONE) by (nonlinear_arith)
            requires
                0 < score <= best,
                SCORE_ONE == 1_000_000_000_000,
        ;
        if score == best {
            assert(best * SCORE_ONE / best == SCORE_ONE) by (nonlinear_arith)
                requires
                    best > 0,
                    SCORE_ONE == 1_000_000_000_000,
            ;
        }
    }
}

proof fn lemma_weighted(score: int, weight: int)
    requires
        0 <= score <= SCORE_ONE,
        0 <= weight <= SCORE_ONE,
    ensures
        0 <= weighted(score, weight) <= weight,
{
    assert(0 <= score * weight / (SCORE_ONE as int) <= weight) by (nonlinear_arith)
        requires
            0 <= score <= SCORE_ONE,
            0 <= weight,
            SCORE_ONE == 1_000_000_000_000,
    ;
}

/// The best of the raw scores, and at least a millionth of one.
pub fn best_score(raw: &Vec<(String, i64)>) -> (r: i64)
    ensures
        r == best_of(raw_of(raw@)),
        r >= LEAST_BEST,
{
    let n: usize = raw.len();
    let mut best: i64 = LEAST_BEST;
    for i in 0..n
        invariant
            n == raw@.len(),
            best >= LEAST_BEST,
            best == best_of(raw_of(raw@).take(i as int)),
    {
        proof {
            let t = raw_of(raw@);
            assert(t.take(i + 1).drop_last() =~= t.take(i as int));
            assert(t.take(i + 1).last().1 == raw@[i as int].1);
        }
        if raw[i].1 > best {
            best = raw[i].1;
        }
    }
    proof {
        assert(raw_of(raw@).take(n as int) =~= raw_of(raw@));
    }
    best
}

fn share(score: i64, best: i64) -> (r: u64)
    requires
        best > 0,
        score <= best,
    ensures
        r == share_of(score, best as int),
        r <= SCORE_ONE,
{
    proof {
        shares_are_relative(score, best as int);
    }
    if score <= 0 {
        0
    } else {
        proof {
            assert(0 <= score * SCORE_ONE <= 0x7fff_ffff_ffff_ffff * 1_000_000_000_000) by (
            nonlinear_arith)
                requires
                    0 < score <= 0x7fff_ffff_ffff_ffff,
                    SCORE_ONE == 1_000_000_000_000,
            ;
        }
        (score as u128 * SCORE_ONE as u128 / best as u128) as u64
    }
}

fn cut(score: i64) -> (r: u64)
    ensures
        r == cut_of(score),
        r <= SCORE_ONE,
{
    if score <= 0 {
        0
    } else if score as u64 >= SCORE_ONE {
        SCORE_ONE
    } else {
        score as u64
    }
}

fn weigh(score: u64, weight: u64) -> (r: u64)
    requires
        score <= SCORE_ONE,
        weight <= SCORE_ONE,
    ensures
        r == weighted(score as int, weight as int),
        r <= SCORE_ONE,
{
    proof {
        lemma_weighted(score as int, weight as int);
        assert(0 <= score * weight <= 1_000_000_000_000 * 1_000_000_000_000) by (nonlinear_arith)
            requires
                score <= 1_000_000_000_000,
                weight <= 1_000_000_000_000,
        ;
    }
    (score as u128 * weight as u128 / SCORE_ONE as u128) as u64
}

/// Each key with the share of its raw score in the best one.
pub fn normalise(raw: &Vec<(String, i64)>) -> (r: Vec<(String, u64)>)
    ensures
        scored_of(r@) == shares_of(raw_of(raw@)),
        forall|i: int| 0 <= i < r@.len() ==> (#[trigger] r@[i]).1 <= SCORE_ONE,
{
    let best: i64 = best_score(raw);
    let n: usize = raw.len();
    let mut r: Vec<(String, u64)> = Vec::new();
    for i in 0..n
        invariant
            n == raw@.len(),
            best == best_of(raw_of(raw@)),
            best > 0,
            r@.len() == i,
            forall|k: int|
                0 <= k < i ==> (#[trigger] r@[k]).0@ == raw@[k].0@ && r@[k].1 == share_of(
                    raw@[k].1,
                    best as int,
                ) && r@[k].1 <= SCORE_ONE,
    {
        proof {
            lemma_best(raw_of(raw@), i as int);
        }
        r.push((raw[i].0.clone(), share(raw[i].1, best)));
    }
    proof {
        assert(scored_of(r@) =~= shares_of(raw_of(raw@)));
    }
    r
}

/// Sums by key, in the order in which the keys came.
struct Tally {
    place: StringHashMap<usize>,
    keys: Vec<String>,
    sums: Vec<u128>,
}

impl Tally {
    spec fn wf(&self, adds: nat) -> bool {
        &&& self.keys@.len() == self.sums@.len()
        &&& forall|i: int|
            0 <= i < self.keys@.len() ==> {
                &&& self.place@.contains_key((#[trigger] self.keys@[i])@)
                &&& self.place@[self.keys@[i]@] == i
            }
        &&& forall|k: Seq<char>| #[trigger]
            self.place@.contains_key(k) ==> self.place@[k] < self.keys@.len()
                && self.keys@[self.place@[k] as int]@ == k
        &&& forall|i: int| 0 <= i < self.sums@.len() ==> #[trigger] self.sums@[i] <= adds * SCORE_ONE
    }

    spec fn has(&self, key: Seq<char>) -> bool {
        self.place@.contains_key(key)
    }

    spec fn sum(&self, key: Seq<char>) -> int {
        if self.place@.contains_key(key) {
            self.sums@[self.place@[key] as int] as int
        } else {
            0
        }
    }

    fn new() -> (r: Self)
        ensures
            r.wf(0),
            forall|k: Seq<char>| !r.has(k),
    {
        Tally { place: StringHashMap::new(), keys: Vec::new(), sums: Vec::new() }
    }

    /// Adds to the sum of a key.
    fn add_to(&mut self, key: &str, amount: u64, adds: Ghost<nat>)
        requires
            old(self).wf(adds@),
            amount <= SCORE_ONE,
            adds@ < 0x2_0000_0000_0000_0000,
        ensures
            final(self).wf(adds@ + 1),
            forall|k: Seq<char>| #[trigger] final(self).has(k) == (old(self).has(k) || k == key@),
            forall|k: Seq<char>| #[trigger]
                final(self).sum(k) == old(self).sum(k) + (if k == key@ {
                    amount as int
                } else {
                    0
                }),
    {
        let ghost before = *self;
        proof {
            assert(adds@ * SCORE_ONE + SCORE_ONE == (adds@ + 1) * SCORE_ONE) by (nonlinear_arith);
            assert(adds@ * SCORE_ONE <= 0x2_0000_0000_0000_0000 * 1_000_000_000_000) by (
            nonlinear_arith)
                requires
                    adds@ < 0x2_0000_0000_0000_0000,
                    SCORE_ONE == 1_000_000_000_000,
            ;
        }
        let found: Option<usize> = match self.place.get(key) {
            Some(p) => Some(*p),
            None => None,
        };
        match found {
            Some(p) => {
                let sum: u128 = self.sums[p] + amount as u128;
                self.sums.set(p, sum);
                proof {
                    assert forall|k: Seq<char>| #[trigger] self.sum(k) == before.sum(k) + (if k
                        == key@ {
                        amount as int
                    } else {
                        0
                    }) by {
                        if before.has(k) && k != key@ {
                            assert(before.place@[k] != p);
                        }
                    }
                }
            },
            None => {
                self.place.insert(key.to_owned(), self.keys.len());
                self.keys.push(key.to_owned());
                self.sums.push(amount as u128);
                proof {
                    assert forall|i: int| 0 <= i < self.keys@.len() implies {
                        &&& self.place@.contains_key((#[trigger] self.keys@[i])@)
                        &&& self.place@[self.keys@[i]@] == i
                    } by {
                        if i < before.keys@.len() {
                            assert(self.keys@[i] == before.keys@[i]);
                            assert(before.place@.contains_key(before.keys@[i]@));
                        }
                    }
                    assert forall|k: Seq<char>| #[trigger] self.sum(k) == before.sum(k) + (if k
                        == key@ {
                        amount as int
                    } else {
                        0
                    }) by {
                        if before.has(k) {
                            assert(before.place@[k] < before.keys@.len());
                        }
                    }
                }
            },
        }
    }
}

/// Adds the scores of two lists up by key, the keyword scores in relation to
/// the best of them and with `weight`, the similarities with what is left of
/// one.
pub fn hybrid_fuse(
    bm25_results: &Vec<(String, i64)>,
    semantic_results: &Vec<(String, i64)>,
    bm25_weight: u64,
) -> (r: Vec<(String, u64)>)
    requires
        bm25_weight <= SCORE_ONE,
    ensures
        is_fusion(
            raw_of(bm25_results@),
            raw_of(semantic_results@),
            bm25_weight as int,
            scored_of(r@),
        ),
{
    let ghost kw = raw_of(bm25_results@);
    let ghost sim = raw_of(semantic_results@);
    let ghost w = bm25_weight as int;
    let best: i64 = best_score(bm25_results);
    let mut tally = Tally::new();
    let n: usize = bm25_results.len();
    for i in 0..n
        invariant
            n == bm25_results@.len(),
            kw == raw_of(bm25_results@),
            w == bm25_weight,
            bm25_weight <= SCORE_ONE,
            best == best_of(kw),
            best > 0,
            tally.wf(i as nat),
            forall|k: Seq<char>| #[trigger] tally.has(k) == names(kw.take(i as int), k),
            forall|k: Seq<char>| #[trigger]
                tally.sum(k) == keyword_part(kw.take(i as int), best as int, w, k),
    {
        proof {
            lemma_best(kw, i as int);
            lemma_names_push(kw, i as int);
            assert(kw.take(i + 1).drop_last() =~= kw.take(i as int));
        }
        let amount: u64 = weigh(share(bm25_results[i].1, best), bm25_weight);
        let ghost before = tally;
        tally.add_to(bm25_results[i].0.as_str(), amount, Ghost(i as nat));
        proof {
            assert forall|k: Seq<char>| #[trigger] tally.has(k) == names(kw.take(i + 1), k) by {
                assert(before.has(k) == names(kw.take(i as int), k));
            }
            assert forall|k: Seq<char>| #[trigger] tally.sum(k) == keyword_part(
                kw.take(i + 1),
                best as int,
                w,
                k,
            ) by {
                assert(before.sum(k) == keyword_part(kw.take(i as int), best as int, w, k));
            }
        }
    }
    proof {
        assert(kw.take(n as int) =~= kw);
    }
    let m: usize = semantic_results.len();
    let rest: u64 = SCORE_ONE - bm25_weight;
    for i in 0..m
        invariant
            m == semantic_results@.len(),
            sim == raw_of(semantic_results@),
            rest == SCORE_ONE - w,
            rest <= SCORE_ONE,
            n <= usize::MAX,
            tally.wf((n + i) as nat),
            forall|k: Seq<char>| #[trigger]
                tally.has(k) == (names(kw, k) || names(sim.take(i as int), k)),
            forall|k: Seq<char>| #[trigger]
                tally.sum(k) == keyword_part(kw, best as int, w, k) + similarity_part(
                    sim.take(i as int),
                    SCORE_ONE - w,
                    k,
                ),
    {
        proof {
            lemma_names_push(sim, i as int);
            assert(sim.take(i + 1).drop_last() =~= sim.take(i as int));
        }
        let amount: u64 = weigh(cut(semantic_results[i].1), rest);
        let ghost before = tally;
        tally.add_to(semantic_results[i].0.as_str(), amount, Ghost((n + i) as nat));
        proof {
            assert forall|k: Seq<char>| #[trigger] tally.has(k) == (names(kw, k) || names(
                sim.take(i + 1),
                k,
            )) by {
                assert(before.has(k) == (names(kw, k) || names(sim.take(i as int), k)));
            }
            assert forall|k: Seq<char>| #[trigger] tally.sum(k) == keyword_part(
                kw,
                best as int,
                w,
                k,
            ) + similarity_part(sim.take(i + 1), SCORE_ONE - w, k) by {
                assert(before.sum(k) == keyword_part(kw, best as int, w, k) + similarity_part(
                    sim.take(i as int),
                    SCORE_ONE - w,
                    k,
                ));
            }
        }
    }
    proof {
        assert(sim.take(m as int) =~= sim);
    }
    let total: usize = tally.keys.len();
    let mut scored: Vec<(String, u64)> = Vec::new();
    for i in 0..total
        invariant
            total == tally.keys@.len(),
            tally.wf((n + m) as nat),
            forall|k: Seq<char>| #[trigger]
                tally.sum(k) == keyword_part(kw, best as int, w, k) + similarity_part(
                    sim,
                    SCORE_ONE - w,
                    k,
                ),
            best == best_of(kw),
            scored@.len() == i,
            forall|k: int|
                0 <= k < i ==> (#[trigger] scored@[k]).0@ == tally.keys@[k]@ && scored@[k].1
                    == fused_score(kw, sim, w, tally.keys@[k]@),
    {
        let sum: u128 = tally.sums[i];
        let score: u64 = if sum > u64::MAX as u128 {
            u64::MAX
        } else {
            sum as u64
        };
        proof {
            assert(tally.place@[tally.keys@[i as int]@] == i);
            assert(tally.sum(tally.keys@[i as int]@) == sum);
        }
        scored.push((tally.keys[i].clone(), score));
    }
    let r = by_score(&scored);
    proof {
        let s = scored_of(scored@);
        let t = scored_of(r@);
        let order = choose|order: Seq<usize>| #[trigger] is_score_order(s, order) && t
            == picked(s, order);
        assert forall|i: int| 0 <= i < s.len() implies tally.has((#[trigger] s[i]).0)
            && tally.place@[s[i].0] == i && s[i].1 == fused_score(kw, sim, w, s[i].0) by {
            assert(scored@[i].0@ == tally.keys@[i]@);
        }
        assert forall|i: int, j: int| 0 <= i < j < t.len() implies (#[trigger] t[i]).0 != (
        #[trigger] t[j]).0 by {
            assert(order[i] != order[j]);
            assert(tally.place@[s[order[i] as int].0] == order[i]);
            assert(tally.place@[s[order[j] as int].0] == order[j]);
        }
        lemma_falling(s, order);
        assert forall|k: Seq<char>| #[trigger] tally.has(k) implies exists|j: int|
            0 <= j < t.len() && (#[trigger] t[j]).0 == k by {
            let p = tally.place@[k] as int;
            assert(s[p].0 == k) by {
                assert(scored@[p].0@ == tally.keys@[p]@);
            }
            crate::sort::lemma_position(ranks_of(s), order, p);
            let j = choose|j: int| 0 <= j < order.len() && #[trigger] order[j] == p;
            assert(t[j].0 == k);
        }
        assert forall|i: int| 0 <= i < kw.len() implies exists|j: int|
            0 <= j < t.len() && (#[trigger] t[j]).0 == (#[trigger] kw[i]).0 by {
            assert(names(kw, kw[i].0));
            assert(tally.has(kw[i].0));
        }
        assert forall|i: int| 0 <= i < sim.len() implies exists|j: int|
            0 <= j < t.len() && (#[trigger] t[j]).0 == (#[trigger] sim[i]).0 by {
            assert(names(sim, sim[i].0));
            assert(tally.has(sim[i].0));
        }
        assert forall|i: int| 0 <= i < t.len() implies {
            &&& names(kw, (#[trigger] t[i]).0) || names(sim, t[i].0)
            &&& t[i].1 == fused_score(kw, sim, w, t[i].0)
        } by {
            assert(t[i] == s[order[i] as int]);
            assert(tally.has(t[i].0));
        }
    }
    r
}

proof fn lemma_names_push(raw: Seq<(Seq<char>, i64)>, i: int)
    requires
        0 <= i < raw.len(),
    ensures
        forall|k: Seq<char>| #[trigger]
            names(raw.take(i + 1), k) == (names(raw.take(i), k) || raw[i].0 == k),
{
    assert forall|k: Seq<char>| #[trigger] names(raw.take(i + 1), k) == (names(raw.take(i), k)
        || raw[i].0 == k) by {
        if names(raw.take(i), k) {
            let j = choose|j: int| 0 <= j < i && (#[trigger] raw.take(i)[j]).0 == k;
            assert(raw.take(i + 1)[j].0 == k);
        }
        if raw[i].0 == k {
            assert(raw.take(i + 1)[i].0 == k);
        }
        if names(raw.take(i + 1), k) {
            let j = choose|j: int| 0 <= j < i + 1 && (#[trigger] raw.take(i + 1)[j]).0 == k;
            if j < i {
                assert(raw.take(i)[j].0 == k);
            }
        }
    }
}

/// The ranks of the items of a list, by score alone.
pub open spec fn ranks_of(scored: Seq<(Seq<char>, u64)>) -> Seq<Rank> {
    Seq::new(scored.len(), |i: int| Rank { score: scored[i].1, recency: 0 })
}

/// Whether `order` is the order by falling score in which items of equal score
/// keep their order.
pub open spec fn is_score_order(scored: Seq<(Seq<char>, u64)>, order: Seq<usize>) -> bool {
    is_order(ranks_of(scored), order)
}

/// The items named by `order`.
pub open spec fn picked<A>(s: Seq<A>, order: Seq<usize>) -> Seq<A> {
    Seq::new(order.len(), |i: int| s[order[i] as int])
}

/// Whether `ranked` is `scored` by falling score, items of equal score in the
/// order in which they were.
pub open spec fn is_ranking(
    scored: Seq<(Seq<char>, u64)>,
    ranked: Seq<(Seq<char>, u64)>,
) -> bool {
    exists|order: Seq<usize>| #[trigger]
        is_score_order(scored, order) && ranked == picked(scored, order)
}

/// Ranking loses nothing and adds nothing: each item is at one place.
pub proof fn ranking_keeps_items(
    scored: Seq<(Seq<char>, u64)>,
    ranked: Seq<(Seq<char>, u64)>,
)
    requires
        is_ranking(scored, ranked),
    ensures
        forall|x: (Seq<char>, u64)| #[trigger] ranked.contains(x) <==> scored.contains(x),
        keys_differ(scored) ==> keys_differ(ranked),
{
    let order = choose|order: Seq<usize>| #[trigger]
        is_score_order(scored, order) && ranked == picked(scored, order);
    assert forall|x: (Seq<char>, u64)| #[trigger] ranked.contains(x) <==> scored.contains(x) by {
        if ranked.contains(x) {
            let i = ranked.index_of(x);
            assert(scored[order[i] as int] == x);
        }
        if scored.contains(x) {
            let k = scored.index_of(x);
            crate::sort::lemma_position(ranks_of(scored), order, k);
            let i = choose|i: int| 0 <= i < order.len() && #[trigger] order[i] == k;
            assert(ranked[i] == x);
        }
    }
    if keys_differ(scored) {
        assert forall|i: int, j: int| 0 <= i < j < ranked.len() implies (#[trigger] ranked[i]).0 != (
        #[trigger] ranked[j]).0 by {
            assert(order[i] != order[j]);
            let a = order[i] as int;
            let b = order[j] as int;
            if a < b {
                assert(scored[a].0 != scored[b].0);
            } else {
                assert(scored[b].0 != scored[a].0);
            }
        }
    }
}

/// No share is above one.
pub proof fn shares_are_at_most_one(raw: Seq<(Seq<char>, i64)>, i: int)
    requires
        0 <= i < raw.len(),
    ensures
        shares_of(raw)[i].1 <= SCORE_ONE,
{
    lemma_best(raw, i);
    lemma_best_range(raw);
    shares_are_relative(raw[i].1, best_of(raw));
}

proof fn lemma_falling(scored: Seq<(Seq<char>, u64)>, order: Seq<usize>)
    requires
        is_score_order(scored, order),
    ensures
        falling(picked(scored, order)),
{
    let t = picked(scored, order);
    assert forall|i: int, j: int| 0 <= i < j < t.len() implies (#[trigger] t[i]).1 >= (
    #[trigger] t[j]).1 by {
        assert(order[i] != order[j]);
        let ranks = ranks_of(scored);
        assert(ranks[order[i] as int].ahead(ranks[order[j] as int]));
    }
}

/// A ranking starts with the highest score.
pub proof fn ranking_falls(scored: Seq<(Seq<char>, u64)>, ranked: Seq<(Seq<char>, u64)>)
    requires
        is_ranking(scored, ranked),
    ensures
        falling(ranked),
        ranked.len() == scored.len(),
{
    let order = choose|order: Seq<usize>| #[trigger]
        is_score_order(scored, order) && ranked == picked(scored, order);
    lemma_falling(scored, order);
}

/// The items by falling score, items of equal score in the order in which they
/// are given.
pub fn by_score(scored: &Vec<(String, u64)>) -> (r: Vec<(String, u64)>)
    ensures
        is_ranking(scored_of(scored@), scored_of(r@)),
{
    let n: usize = scored.len();
    let mut ranks: Vec<Rank> = Vec::new();
    for i in 0..n
        invariant
            n == scored@.len(),
            ranks@.len() == i,
            forall|k: int|
                0 <= k < i ==> #[trigger] ranks@[k] == (Rank { score: scored@[k].1, recency: 0 }),
    {
        ranks.push(Rank { score: scored[i].1, recency: 0 });
    }
    proof {
        assert(ranks@ =~= ranks_of(scored_of(scored@)));
    }
    let order = ordered(&ranks);
    let m: usize = order.len();
    let mut r: Vec<(String, u64)> = Vec::new();
    for i in 0..m
        invariant
            m == order@.len(),
            is_order(ranks@, order@),
            ranks@.len() == scored@.len(),
            r@.len() == i,
            forall|k: int|
                0 <= k < i ==> (#[trigger] r@[k]).0@ == scored@[order@[k] as int].0@ && r@[k].1
                    == scored@[order@[k] as int].1,
    {
        let at: usize = order[i];
        r.push((scored[at].0.clone(), scored[at].1));
    }
    proof {
        let s = scored_of(scored@);
        assert(scored_of(r@) =~= picked(s, order@));
        assert(is_score_order(s, order@));
    }
    r
}

/// The raw scores of a list.
pub open spec fn raw_scores(raw: Seq<(Seq<char>, i64)>) -> Seq<i64> {
    Seq::new(raw.len(), |i: int| raw[i].1)
}

/// Whether `top` is the first `k` items of `raw` by falling score, items of
/// equal score in the order in which they were.
pub open spec fn is_top(
    raw: Seq<(Seq<char>, i64)>,
    k: int,
    top: Seq<(Seq<char>, i64)>,
) -> bool {
    exists|order: Seq<usize>| #[trigger]
        is_order(raw_scores(raw), order) && top == crate::text::first_of(picked(raw, order), k)
}

/// The first `k` items by falling score.
pub fn top_matches(raw: &Vec<(String, i64)>, k: usize) -> (r: Vec<(String, i64)>)
    ensures
        is_top(raw_of(raw@), k as int, raw_of(r@)),
{
    let n: usize = raw.len();
    let mut scores: Vec<i64> = Vec::new();
    for i in 0..n
        invariant
            n == raw@.len(),
            scores@.len() == i,
            forall|j: int| 0 <= j < i ==> #[trigger] scores@[j] == raw@[j].1,
    {
        scores.push(raw[i].1);
    }
    proof {
        assert(scores@ =~= raw_scores(raw_of(raw@)));
    }
    let order = ordered(&scores);
    let m: usize = if order.len() < k {
        order.len()
    } else {
        k
    };
    let mut r: Vec<(String, i64)> = Vec::new();
    for i in 0..m
        invariant
            m <= order@.len(),
            is_order(scores@, order@),
            scores@.len() == raw@.len(),
            r@.len() == i,
            forall|j: int|
                0 <= j < i ==> (#[trigger] r@[j]).0@ == raw@[order@[j] as int].0@ && r@[j].1
                    == raw@[order@[j] as int].1,
    {
        let at: usize = order[i];
        r.push((raw[at].0.clone(), raw[at].1));
    }
    proof {
        let s = raw_of(raw@);
        assert(raw_of(r@) =~= crate::text::first_of(picked(s, order@), k as int));
    }
    r
}

/// Whether no key of a list of raw scores comes twice.
pub open spec fn raw_keys_differ(raw: Seq<(Seq<char>, i64)>) -> bool {
    forall|i: int, j: int|
        0 <= i < j < raw.len() ==> (#[trigger] raw[i]).0 != (#[trigger] raw[j]).0
}

proof fn lemma_keyword_part(
    raw: Seq<(Seq<char>, i64)>,
    best: int,
    weight: int,
    key: Seq<char>,
)
    requires
        raw_keys_differ(raw),
        best > 0,
        forall|i: int| 0 <= i < raw.len() ==> (#[trigger] raw[i]).1 <= best,
        0 <= weight <= SCORE_ONE,
    ensures
        0 <= keyword_part(raw, best, weight, key) <= weight,
        !names(raw, key) ==> keyword_part(raw, best, weight, key) == 0,
    decreases raw.len(),
{
    if raw.len() > 0 {
        let rest = raw.drop_last();
        assert forall|i: int| 0 <= i < rest.len() implies (#[trigger] rest[i]).1 <= best by {
            assert(rest[i] == raw[i]);
        }
        lemma_keyword_part(rest, best, weight, key);
        shares_are_relative(raw[raw.len() - 1].1, best);
        lemma_weighted(share_of(raw.last().1, best), weight);
        if raw.last().0 == key {
            assert(names(raw, key)) by {
                assert(raw[raw.len() - 1].0 == key);
            }
            if names(rest, key) {
                let i = choose|i: int| 0 <= i < rest.len() && (#[trigger] rest[i]).0 == key;
                assert(raw[i].0 != raw[raw.len() - 1].0);
            }
        } else if names(rest, key) {
            let i = choose|i: int| 0 <= i < rest.len() && (#[trigger] rest[i]).0 == key;
            assert(raw[i].0 == key);
        }
    }
}

proof fn lemma_similarity_part(raw: Seq<(Seq<char>, i64)>, weight: int, key: Seq<char>)
    requires
        raw_keys_differ(raw),
        0 <= weight <= SCORE_ONE,
    ensures
        0 <= similarity_part(raw, weight, key) <= weight,
        !names(raw, key) ==> similarity_part(raw, weight, key) == 0,
    decreases raw.len(),
{
    if raw.len() > 0 {
        let rest = raw.drop_last();
        lemma_similarity_part(rest, weight, key);
        lemma_weighted(cut_of(raw.last().1), weight);
        if raw.last().0 == key {
            assert(names(raw, key)) by {
                assert(raw[raw.len() - 1].0 == key);
            }
            if names(rest, key) {
                let i = choose|i: int| 0 <= i < rest.len() && (#[trigger] rest[i]).0 == key;
                assert(raw[i].0 != raw[raw.len() - 1].0);
            }
        } else if names(rest, key) {
            let i = choose|i: int| 0 <= i < rest.len() && (#[trigger] rest[i]).0 == key;
            assert(raw[i].0 == key);
        }
    }
}

/// Where no key comes twice in either list, a score over both lies between 0
/// and one.
pub proof fn fused_score_is_at_most_one(
    keyword: Seq<(Seq<char>, i64)>,
    similar: Seq<(Seq<char>, i64)>,
    weight: int,
    key: Seq<char>,
)
    requires
        raw_keys_differ(keyword),
        raw_keys_differ(similar),
        0 <= weight <= SCORE_ONE,
    ensures
        0 <= fused_score(keyword, similar, weight, key) <= SCORE_ONE,
{
    lemma_best_range(keyword);
    assert forall|i: int| 0 <= i < keyword.len() implies (#[trigger] keyword[i]).1 <= best_of(
        keyword,
    ) by {
        lemma_best(keyword, i);
    }
    lemma_keyword_part(keyword, best_of(keyword), weight, key);
    lemma_similarity_part(similar, SCORE_ONE - weight, key);
}

} // verus!
