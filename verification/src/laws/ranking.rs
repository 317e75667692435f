//! What putting scores in order and adding them up promises.

use crate::fusion::{
    best_of, cut_of, fused_score, is_fusion, is_ranking, is_score_order, is_top, keyword_part,
    names, picked, ranks_of, raw_scores, share_of, shares_of, similarity_part, weighted,
};
use crate::sort::{is_order, lemma_position, precedes, text_le, Rank};
use crate::text::first_of;
use vstd::prelude::*;

verus! {

/// The best of the scores is the highest of them, and at least a millionth.
pub proof fn best_is_the_highest(raw: Seq<(Seq<char>, i64)>)
    ensures
        best_of(raw) >= 1_000_000,
        forall|i: int| 0 <= i < raw.len() ==> (#[trigger] raw[i]).1 <= best_of(raw),
        best_of(raw) == 1_000_000 || exists|i: int|
            0 <= i < raw.len() && (#[trigger] raw[i]).1 == best_of(raw),
    decreases raw.len(),
{
    if raw.len() > 0 {
        let rest = raw.drop_last();
        best_is_the_highest(rest);
        assert forall|i: int| 0 <= i < raw.len() implies (#[trigger] raw[i]).1 <= best_of(raw) by {
            if i < rest.len() {
                assert(rest[i] == raw[i]);
            }
        }
        if best_of(raw) == best_of(rest) {
            if best_of(rest) != 1_000_000 {
                let i = choose|i: int|
                    0 <= i < rest.len() && (#[trigger] rest[i]).1 == best_of(rest);
                assert(raw[i] == rest[i]);
            }
        } else {
            assert(raw[raw.len() - 1].1 == best_of(raw));
        }
    }
}

/// The share of a positive score is the whole number of parts of one that the
/// score makes of the best; any other score has no share.
pub proof fn share_is_in_proportion(score: i64, best: int)
    requires
        best > 0,
    ensures
        score > 0 ==> share_of(score, best) * best <= score * 1_000_000_000_000 < (share_of(
            score,
            best,
        ) + 1) * best,
        score <= 0 ==> share_of(score, best) == 0,
{
    if score > 0 {
        let n = score * 1_000_000_000_000;
        assert((n / best) * best <= n < (n / best + 1) * best) by (nonlinear_arith)
            requires
                best > 0,
        ;
    }
}

/// Each share stands at the place of its score and is the one that the best
/// score of the list gives it.
pub proof fn shares_keep_their_places(raw: Seq<(Seq<char>, i64)>, i: int)
    requires
        0 <= i < raw.len(),
    ensures
        shares_of(raw).len() == raw.len(),
        shares_of(raw)[i].0 == raw[i].0,
        raw[i].1 <= 0 ==> shares_of(raw)[i].1 == 0,
        raw[i].1 > 0 ==> shares_of(raw)[i].1 * best_of(raw) <= raw[i].1 * 1_000_000_000_000 < (
        shares_of(raw)[i].1 + 1) * best_of(raw),
{
    best_is_the_highest(raw);
    share_is_in_proportion(raw[i].1, best_of(raw));
    crate::fusion::shares_are_relative(raw[i].1, best_of(raw));
}

/// A similarity counts as it is between 0 and one, and as the nearer of them
/// outside.
pub proof fn similarities_are_cut(score: i64)
    ensures
        0 <= score <= 1_000_000_000_000 ==> cut_of(score) == score,
        score < 0 ==> cut_of(score) == 0,
        score > 1_000_000_000_000 ==> cut_of(score) == 1_000_000_000_000,
{
}

/// A weighted score is the product of score and weight, in whole parts of one.
pub proof fn weights_multiply(score: int, weight: int)
    ensures
        weighted(score, weight) * 1_000_000_000_000 <= score * weight < (weighted(score, weight)
            + 1) * 1_000_000_000_000,
{
    let n = score * weight;
    assert((n / 1_000_000_000_000) * 1_000_000_000_000 <= n < (n / 1_000_000_000_000 + 1)
        * 1_000_000_000_000);
}

/// A score that is added to a list adds its weighted part to the sum of its key,
/// and to no other.
pub proof fn parts_add_up(
    raw: Seq<(Seq<char>, i64)>,
    item: (Seq<char>, i64),
    best: int,
    weight: int,
    key: Seq<char>,
)
    ensures
        keyword_part(Seq::empty(), best, weight, key) == 0,
        similarity_part(Seq::empty(), weight, key) == 0,
        item.0 == key ==> keyword_part(raw.push(item), best, weight, key) == keyword_part(
            raw,
            best,
            weight,
            key,
        ) + weighted(share_of(item.1, best), weight),
        item.0 != key ==> keyword_part(raw.push(item), best, weight, key) == keyword_part(
            raw,
            best,
            weight,
            key,
        ),
        item.0 == key ==> similarity_part(raw.push(item), weight, key) == similarity_part(
            raw,
            weight,
            key,
        ) + weighted(cut_of(item.1), weight),
        item.0 != key ==> similarity_part(raw.push(item), weight, key) == similarity_part(
            raw,
            weight,
            key,
        ),
{
    assert(raw.push(item).drop_last() =~= raw);
}

proof fn lemma_keyword_none(raw: Seq<(Seq<char>, i64)>, best: int, weight: int, key: Seq<char>)
    requires
        forall|i: int| 0 <= i < raw.len() ==> (#[trigger] raw[i]).0 != key,
    ensures
        keyword_part(raw, best, weight, key) == 0,
        similarity_part(raw, weight, key) == 0,
    decreases raw.len(),
{
    if raw.len() > 0 {
        let rest = raw.drop_last();
        assert forall|i: int| 0 <= i < rest.len() implies (#[trigger] rest[i]).0 != key by {
            assert(rest[i] == raw[i]);
        }
        assert(raw[raw.len() - 1].0 != key);
        lemma_keyword_none(rest, best, weight, key);
    }
}

proof fn lemma_part_at(
    raw: Seq<(Seq<char>, i64)>,
    best: int,
    weight: int,
    i: int,
)
    requires
        0 <= i < raw.len(),
        forall|a: int, b: int|
            0 <= a < b < raw.len() ==> (#[trigger] raw[a]).0 != (#[trigger] raw[b]).0,
    ensures
        keyword_part(raw, best, weight, raw[i].0) == weighted(share_of(raw[i].1, best), weight),
        similarity_part(raw, weight, raw[i].0) == weighted(cut_of(raw[i].1), weight),
    decreases raw.len(),
{
    let rest = raw.drop_last();
    let key = raw[i].0;
    assert forall|a: int, b: int| 0 <= a < b < rest.len() implies (#[trigger] rest[a]).0 != (
    #[trigger] rest[b]).0 by {
        assert(raw[a].0 != raw[b].0);
    }
    if i == raw.len() - 1 {
        assert forall|a: int| 0 <= a < rest.len() implies (#[trigger] rest[a]).0 != key by {
            assert(raw[a].0 != raw[i].0);
        }
        lemma_keyword_none(rest, best, weight, key);
    } else {
        assert(rest[i] == raw[i]);
        assert(raw[i].0 != raw[raw.len() - 1].0);
        lemma_part_at(rest, best, weight, i);
    }
}

/// Where no key comes twice in either list, the score of a key over both is the
/// share of its keyword score, weighted, and its similarity, with the rest of
/// the weight; a list that does not name the key adds nothing.
pub proof fn scores_of_both_lists_add_up(
    keyword: Seq<(Seq<char>, i64)>,
    similar: Seq<(Seq<char>, i64)>,
    weight: int,
    key: Seq<char>,
)
    requires
        0 <= weight <= 1_000_000_000_000,
        forall|a: int, b: int|
            0 <= a < b < keyword.len() ==> (#[trigger] keyword[a]).0 != (#[trigger] keyword[b]).0,
        forall|a: int, b: int|
            0 <= a < b < similar.len() ==> (#[trigger] similar[a]).0 != (#[trigger] similar[b]).0,
    ensures
        forall|i: int, j: int|
            0 <= i < keyword.len() && 0 <= j < similar.len() && (#[trigger] keyword[i]).0 == key && (
            #[trigger] similar[j]).0 == key ==> fused_score(keyword, similar, weight, key)
                == share_of(keyword[i].1, best_of(keyword)) * weight / 1_000_000_000_000 + cut_of(
                similar[j].1,
            ) * (1_000_000_000_000 - weight) / 1_000_000_000_000,
        forall|i: int|
            0 <= i < keyword.len() && (#[trigger] keyword[i]).0 == key && !names(similar, key)
                ==> fused_score(keyword, similar, weight, key) == share_of(
                keyword[i].1,
                best_of(keyword),
            ) * weight / 1_000_000_000_000,
        forall|j: int|
            0 <= j < similar.len() && (#[trigger] similar[j]).0 == key && !names(keyword, key)
                ==> fused_score(keyword, similar, weight, key) == cut_of(similar[j].1) * (
            1_000_000_000_000 - weight) / 1_000_000_000_000,
{
    crate::fusion::fused_score_is_at_most_one(keyword, similar, weight, key);
    let best = best_of(keyword);
    let rest = 1_000_000_000_000 - weight;
    best_is_the_highest(keyword);
    assert forall|i: int| 0 <= i < keyword.len() && (#[trigger] keyword[i]).0 == key implies
        keyword_part(keyword, best, weight, key) == share_of(keyword[i].1, best) * weight
        / 1_000_000_000_000 && 0 <= keyword_part(keyword, best, weight, key) <= 1_000_000_000_000 by {
        lemma_part_at(keyword, best, weight, i);
        crate::fusion::shares_are_relative(keyword[i].1, best);
        lemma_within(share_of(keyword[i].1, best), weight);
    }
    assert forall|j: int| 0 <= j < similar.len() && (#[trigger] similar[j]).0 == key implies
        similarity_part(similar, rest, key) == cut_of(similar[j].1) * rest / 1_000_000_000_000
        && 0 <= similarity_part(similar, rest, key) <= 1_000_000_000_000 by {
        lemma_part_at(similar, best, rest, j);
        lemma_within(cut_of(similar[j].1), rest);
    }
    if !names(keyword, key) {
        lemma_keyword_none(keyword, best, weight, key);
    }
    if !names(similar, key) {
        lemma_keyword_none(similar, best, rest, key);
    }
}

proof fn lemma_within(score: int, weight: int)
    requires
        0 <= score <= 1_000_000_000_000,
        0 <= weight <= 1_000_000_000_000,
    ensures
        0 <= weighted(score, weight) <= 1_000_000_000_000,
{
    assert(0 <= score * weight <= 1_000_000_000_000 * 1_000_000_000_000) by (nonlinear_arith)
        requires
            0 <= score <= 1_000_000_000_000,
            0 <= weight <= 1_000_000_000_000,
    ;
}

/// A list names a key exactly where one of its items has it.
pub proof fn lists_name_their_keys(raw: Seq<(Seq<char>, i64)>, key: Seq<char>)
    ensures
        names(raw, key) <==> raw.map_values(|x: (Seq<char>, i64)| x.0).contains(key),
{
    let keys = raw.map_values(|x: (Seq<char>, i64)| x.0);
    if names(raw, key) {
        let i = choose|i: int| 0 <= i < raw.len() && (#[trigger] raw[i]).0 == key;
        assert(keys[i] == key);
    }
    if keys.contains(key) {
        let i = keys.index_of(key);
        assert(raw[i].0 == key);
    }
}

/// Two lists together give each key of either once, no other key, and the
/// higher score first.
pub proof fn fusion_gives_each_key_once(
    keyword: Seq<(Seq<char>, i64)>,
    similar: Seq<(Seq<char>, i64)>,
    weight: int,
    fused: Seq<(Seq<char>, u64)>,
    key: Seq<char>,
)
    requires
        is_fusion(keyword, similar, weight, fused),
    ensures
        (exists|i: int| 0 <= i < fused.len() && (#[trigger] fused[i]).0 == key) <==> (exists|i: int|
            0 <= i < keyword.len() && (#[trigger] keyword[i]).0 == key) || (exists|i: int|
            0 <= i < similar.len() && (#[trigger] similar[i]).0 == key),
        forall|i: int, j: int|
            0 <= i < j < fused.len() ==> (#[trigger] fused[i]).0 != (#[trigger] fused[j]).0
                && fused[i].1 >= fused[j].1,
        forall|i: int|
            0 <= i < fused.len() ==> (#[trigger] fused[i]).1 == fused_score(
                keyword,
                similar,
                weight,
                fused[i].0,
            ),
{
}

/// Whether a list of places names a place.
pub open spec fn is_placed(order: Seq<usize>, k: int) -> bool {
    exists|i: int| 0 <= i < order.len() && #[trigger] order[i] == k
}

/// Items are put in order by their scores and, of equal scores, by the number
/// beside; items that are equal in both keep their order. Each item has one
/// place.
pub proof fn higher_scores_come_first(items: Seq<Rank>, order: Seq<usize>)
    requires
        is_order(items, order),
    ensures
        order.len() == items.len(),
        forall|k: int| 0 <= k < items.len() ==> is_placed(order, k),
        forall|i: int, j: int|
            0 <= i < j < order.len() ==> {
                let a = #[trigger] order[i] as int;
                let b = #[trigger] order[j] as int;
                &&& 0 <= a < items.len() && 0 <= b < items.len()
                &&& items[a].score > items[b].score || (items[a].score == items[b].score && (
                items[a].recency > items[b].recency || (items[a].recency == items[b].recency && a
                    < b)))
            },
{
    assert forall|k: int| 0 <= k < items.len() implies is_placed(order, k) by {
        lemma_position(items, order, k);
    }
    assert forall|i: int, j: int| 0 <= i < j < order.len() implies {
        let a = #[trigger] order[i] as int;
        let b = #[trigger] order[j] as int;
        &&& 0 <= a < items.len() && 0 <= b < items.len()
        &&& items[a].score > items[b].score || (items[a].score == items[b].score && (
        items[a].recency > items[b].recency || (items[a].recency == items[b].recency && a < b)))
    } by {
        let a = order[i] as int;
        let b = order[j] as int;
        assert(order[i] != order[j] && precedes(items, a, b));
    }
}

/// A ranking takes each item of the list from one place: the higher score comes
/// first, and items of equal score keep their order.
pub proof fn ranking_is_by_falling_score(
    scored: Seq<(Seq<char>, u64)>,
    ranked: Seq<(Seq<char>, u64)>,
)
    requires
        is_ranking(scored, ranked),
    ensures
        exists|place: Seq<usize>|
            {
                &&& #[trigger] place.len() == ranked.len()
                &&& ranked.len() == scored.len()
                &&& forall|k: int| 0 <= k < scored.len() ==> is_placed(place, k)
                &&& forall|i: int|
                    0 <= i < place.len() ==> 0 <= #[trigger] place[i] < scored.len() && ranked[i]
                        == scored[place[i] as int]
                &&& forall|i: int, j: int|
                    0 <= i < j < place.len() ==> scored[#[trigger] place[i] as int].1
                        > scored[#[trigger] place[j] as int].1 || (scored[place[i] as int].1
                        == scored[place[j] as int].1 && place[i] < place[j])
            },
{
    let order = choose|order: Seq<usize>| #[trigger]
        is_score_order(scored, order) && ranked == picked(scored, order);
    let items = ranks_of(scored);
    higher_scores_come_first(items, order);
    assert forall|i: int, j: int| 0 <= i < j < order.len() implies scored[#[trigger] order[i] as int].1
        > scored[#[trigger] order[j] as int].1 || (scored[order[i] as int].1
        == scored[order[j] as int].1 && order[i] < order[j]) by {
        assert(items[order[i] as int].score == scored[order[i] as int].1);
        assert(items[order[j] as int].score == scored[order[j] as int].1);
    }
    assert(order.len() == ranked.len());
}

/// The best items of a list are as many as were asked for, or all; they come
/// from different places, the higher score first, and no item that is left out
/// scores higher than one that is taken.
pub proof fn top_items_are_the_best(
    raw: Seq<(Seq<char>, i64)>,
    k: int,
    top: Seq<(Seq<char>, i64)>,
)
    requires
        is_top(raw, k, top),
        k >= 0,
    ensures
        top.len() == (if raw.len() <= k {
            raw.len() as int
        } else {
            k
        }),
        exists|place: Seq<usize>|
            {
                &&& #[trigger] place.len() == top.len()
                &&& forall|i: int|
                    0 <= i < place.len() ==> 0 <= #[trigger] place[i] < raw.len() && top[i]
                        == raw[place[i] as int]
                &&& forall|i: int, j: int|
                    0 <= i < j < place.len() ==> raw[#[trigger] place[i] as int].1
                        > raw[#[trigger] place[j] as int].1 || (raw[place[i] as int].1
                        == raw[place[j] as int].1 && place[i] < place[j])
                &&& forall|m: int, i: int|
                    0 <= m < raw.len() && 0 <= i < place.len() && !place.contains(m as usize)
                        ==> (#[trigger] raw[m]).1 <= raw[#[trigger] place[i] as int].1
            },
{
    let scores = raw_scores(raw);
    let order = choose|order: Seq<usize>| #[trigger]
        is_order(scores, order) && top == first_of(picked(raw, order), k);
    let place = first_of(order, k);
    assert(place.len() == top.len());
    assert forall|i: int| 0 <= i < place.len() implies 0 <= #[trigger] place[i] < raw.len()
        && top[i] == raw[place[i] as int] by {
        assert(place[i] == order[i]);
        assert(picked(raw, order)[i] == raw[order[i] as int]);
    }
    assert forall|i: int, j: int| 0 <= i < j < place.len() implies raw[#[trigger] place[i] as int].1
        > raw[#[trigger] place[j] as int].1 || (raw[place[i] as int].1 == raw[place[j] as int].1
        && place[i] < place[j]) by {
        assert(place[i] == order[i] && place[j] == order[j]);
        assert(precedes(scores, order[i] as int, order[j] as int));
    }
    assert forall|m: int, i: int|
        0 <= m < raw.len() && 0 <= i < place.len() && !place.contains(m as usize) implies (
    #[trigger] raw[m]).1 <= raw[#[trigger] place[i] as int].1 by {
        lemma_position(scores, order, m);
        let j = choose|j: int| 0 <= j < order.len() && #[trigger] order[j] == m;
        assert(place[i] == order[i]);
        if j < place.len() {
            assert(place[j] == m as usize);
        }
        assert(i < j);
        assert(order[i] != order[j] && precedes(scores, order[i] as int, order[j] as int));
    }
}

/// A text comes no later than another exactly where the other begins with it, or
/// where it has the lesser character at the first place at which they differ.
pub proof fn texts_are_ordered_by_their_characters(a: Seq<char>, b: Seq<char>)
    ensures
        text_le(a, b) <==> (a.len() <= b.len() && b.take(a.len() as int) == a) || exists|i: int|
            0 <= i < a.len() && i < b.len() && #[trigger] a.take(i) == b.take(i) && a[i] < b[i],
    decreases a.len(),
{
    if a.len() > 0 && b.len() > 0 {
        let x = a.skip(1);
        let y = b.skip(1);
        texts_are_ordered_by_their_characters(x, y);
        if a[0] == b[0] {
            if x.len() <= y.len() && y.take(x.len() as int) == x {
                assert(b.take(a.len() as int) =~= a) by {
                    assert forall|k: int| 0 <= k < a.len() implies b[k] == a[k] by {
                        if k > 0 {
                            assert(y.take(x.len() as int)[k - 1] == x[k - 1]);
                        }
                    }
                }
            }
            if a.len() <= b.len() && b.take(a.len() as int) == a {
                assert(y.take(x.len() as int) =~= x) by {
                    assert forall|k: int| 0 <= k < x.len() implies y[k] == x[k] by {
                        assert(b.take(a.len() as int)[k + 1] == a[k + 1]);
                    }
                }
            }
            if exists|i: int|
                0 <= i < x.len() && i < y.len() && #[trigger] x.take(i) == y.take(i) && x[i]
                    < y[i] {
                let i = choose|i: int|
                    0 <= i < x.len() && i < y.len() && #[trigger] x.take(i) == y.take(i) && x[i]
                        < y[i];
                assert(a.take(i + 1) =~= b.take(i + 1)) by {
                    assert forall|k: int| 0 <= k < i + 1 implies a[k] == b[k] by {
                        if k > 0 {
                            assert(x.take(i)[k - 1] == y.take(i)[k - 1]);
                        }
                    }
                }
                assert(a[i + 1] < b[i + 1]);
            }
            if exists|i: int|
                0 <= i < a.len() && i < b.len() && #[trigger] a.take(i) == b.take(i) && a[i]
                    < b[i] {
                let i = choose|i: int|
                    0 <= i < a.len() && i < b.len() && #[trigger] a.take(i) == b.take(i) && a[i]
                        < b[i];
                assert(i > 0);
                assert(x.take(i - 1) =~= y.take(i - 1)) by {
                    assert forall|k: int| 0 <= k < i - 1 implies x[k] == y[k] by {
                        assert(a.take(i)[k + 1] == b.take(i)[k + 1]);
                    }
                }
                assert(x[i - 1] < y[i - 1]);
            }
        } else {
            if a[0] < b[0] {
                assert(a.take(0) =~= b.take(0));
            }
            if a.len() <= b.len() && b.take(a.len() as int) == a {
                assert(b.take(a.len() as int)[0] == a[0]);
            }
            if exists|i: int|
                0 <= i < a.len() && i < b.len() && #[trigger] a.take(i) == b.take(i) && a[i]
                    < b[i] {
                let i = choose|i: int|
                    0 <= i < a.len() && i < b.len() && #[trigger] a.take(i) == b.take(i) && a[i]
                        < b[i];
                if i > 0 {
                    assert(a.take(i)[0] == b.take(i)[0]);
                }
            }
        }
    } else if a.len() == 0 {
        assert(b.take(0) =~= a);
    }
}

} // verus!
