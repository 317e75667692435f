//! Stable sorting.
//!
//! Items are ordered by an index vector: `ordered(items)` names the items in
//! the order in which they come, and the caller picks them out. Items of equal
//! rank keep the order in which they were given.

use crate::text::{chars_of, texts};
use vstd::prelude::*;
use vstd::string::*;

verus! {

/// A type with a total order in which equal rank does not mean equal value.
pub trait Ranked: Sized {
    /// Whether `self` ranks no later than `other`.
    spec fn ahead(self, other: Self) -> bool;

    /// Of any two items one ranks no later than the other.
    proof fn ahead_total(a: Self, b: Self)
        ensures
            a.ahead(b) || b.ahead(a),
    ;

    /// The order is transitive.
    proof fn ahead_transitive(a: Self, b: Self, c: Self)
        requires
            a.ahead(b),
            b.ahead(c),
        ensures
            a.ahead(c),
    ;

    /// Whether `self` ranks no later than `other`.
    fn is_ahead(&self, other: &Self) -> (r: bool)
        ensures
            r == self.ahead(*other),
    ;
}

/// Whether the item at `a` comes before the item at `b` in a stable sort.
pub open spec fn precedes<T: Ranked>(items: Seq<T>, a: int, b: int) -> bool {
    &&& items[a].ahead(items[b])
    &&& items[b].ahead(items[a]) ==> a < b
}

/// Whether `r` names each of the numbers from `lo` up to `hi` once, in the
/// order in which a stable sort puts the items at these places.
pub open spec fn order_of_range<T: Ranked>(items: Seq<T>, lo: int, hi: int, r: Seq<usize>) -> bool {
    &&& r.len() == hi - lo
    &&& forall|i: int| 0 <= i < r.len() ==> lo <= #[trigger] r[i] < hi
    &&& forall|i: int, j: int|
        0 <= i < j < r.len() ==> #[trigger] r[i] != #[trigger] r[j] && precedes(
            items,
            r[i] as int,
            r[j] as int,
        )
}

/// Whether `r` is the stable order of `items`.
pub open spec fn is_order<T: Ranked>(items: Seq<T>, r: Seq<usize>) -> bool {
    order_of_range(items, 0, items.len() as int, r)
}

proof fn lemma_precedes_transitive<T: Ranked>(items: Seq<T>, a: int, b: int, c: int)
    requires
        precedes(items, a, b),
        precedes(items, b, c),
    ensures
        precedes(items, a, c),
{
    T::ahead_transitive(items[a], items[b], items[c]);
    if items[c].ahead(items[a]) {
        T::ahead_transitive(items[c], items[a], items[b]);
        T::ahead_transitive(items[b], items[c], items[a]);
    }
}

/// Every place below the length is named by the order.
pub proof fn lemma_position<T: Ranked>(items: Seq<T>, r: Seq<usize>, k: int)
    requires
        is_order(items, r),
        0 <= k < items.len(),
    ensures
        exists|i: int| 0 <= i < r.len() && #[trigger] r[i] == k,
{
    let named = r.map_values(|x: usize| x as int);
    let all = vstd::set_lib::set_int_range(0, items.len() as int);
    vstd::set_lib::lemma_int_range(0, items.len() as int);
    assert(named.no_duplicates());
    named.unique_seq_to_set();
    assert(named.to_set().subset_of(all)) by {
        assert forall|x: int| named.to_set().contains(x) implies all.contains(x) by {
            let i = choose|i: int| 0 <= i < named.len() && named[i] == x;
            assert(0 <= r[i] < items.len());
        }
    }
    vstd::set_lib::lemma_subset_equality(named.to_set(), all);
    assert(named.to_set().contains(k));
    let i = choose|i: int| 0 <= i < named.len() && named[i] == k;
    assert(r[i] == k);
}

/// Merges the orders of two neighbouring ranges.
fn merge<T: Ranked>(
    items: &Vec<T>,
    left: &Vec<usize>,
    right: &Vec<usize>,
    lo: usize,
    mid: usize,
    hi: usize,
) -> (r: Vec<usize>)
    requires
        lo <= mid <= hi <= items@.len(),
        order_of_range(items@, lo as int, mid as int, left@),
        order_of_range(items@, mid as int, hi as int, right@),
    ensures
        order_of_range(items@, lo as int, hi as int, r@),
{
    let mut r: Vec<usize> = Vec::new();
    let mut i: usize = 0;
    let mut j: usize = 0;
    while i < left.len() || j < right.len()
        invariant
            lo <= mid <= hi <= items@.len(),
            order_of_range(items@, lo as int, mid as int, left@),
            order_of_range(items@, mid as int, hi as int, right@),
            i <= left@.len(),
            j <= right@.len(),
            r@.len() == i + j,
            forall|k: int|
                0 <= k < r@.len() ==> (exists|a: int| 0 <= a < i && left@[a] == #[trigger] r@[k])
                    || (exists|b: int| 0 <= b < j && right@[b] == r@[k]),
            forall|k: int| 0 <= k < r@.len() ==> lo <= #[trigger] r@[k] < hi,
            forall|k: int, a: int|
                0 <= k < r@.len() && i <= a < left@.len() ==> #[trigger] r@[k]
                    != #[trigger] left@[a] && precedes(items@, r@[k] as int, left@[a] as int),
            forall|k: int, b: int|
                0 <= k < r@.len() && j <= b < right@.len() ==> #[trigger] r@[k]
                    != #[trigger] right@[b] && precedes(items@, r@[k] as int, right@[b] as int),
            forall|p: int, q: int|
                0 <= p < q < r@.len() ==> #[trigger] r@[p] != #[trigger] r@[q] && precedes(
                    items@,
                    r@[p] as int,
                    r@[q] as int,
                ),
        decreases left@.len() - i + right@.len() - j,
    {
        let from_left: bool = if i == left.len() {
            false
        } else if j == right.len() {
            true
        } else {
            items[left[i]].is_ahead(&items[right[j]])
        };
        let ghost before = r@;
        if from_left {
            let x: usize = left[i];
            proof {
                assert forall|b: int| j <= b < right@.len() implies x != #[trigger] right@[b]
                    && precedes(items@, x as int, right@[b] as int) by {
                    assert(precedes(items@, x as int, right@[j as int] as int));
                    if b > j {
                        lemma_precedes_transitive(
                            items@,
                            x as int,
                            right@[j as int] as int,
                            right@[b] as int,
                        );
                    }
                }
            }
            r.push(x);
            i = i + 1;
            proof {
                assert forall|k: int| 0 <= k < r@.len() implies (exists|a: int|
                    0 <= a < i && left@[a] == #[trigger] r@[k]) || (exists|b: int|
                    0 <= b < j && right@[b] == r@[k]) by {
                    if k == before.len() {
                        assert(left@[i - 1] == r@[k]);
                    } else {
                        assert(r@[k] == before[k]);
                    }
                }
            }
        } else {
            let y: usize = right[j];
            proof {
                assert forall|a: int| i <= a < left@.len() implies y != #[trigger] left@[a]
                    && precedes(items@, y as int, left@[a] as int) by {
                    T::ahead_total(items@[left@[i as int] as int], items@[y as int]);
                    assert(precedes(items@, y as int, left@[i as int] as int));
                    if a > i {
                        lemma_precedes_transitive(
                            items@,
                            y as int,
                            left@[i as int] as int,
                            left@[a] as int,
                        );
                    }
                }
            }
            r.push(y);
            j = j + 1;
            proof {
                assert forall|k: int| 0 <= k < r@.len() implies (exists|a: int|
                    0 <= a < i && left@[a] == #[trigger] r@[k]) || (exists|b: int|
                    0 <= b < j && right@[b] == r@[k]) by {
                    if k == before.len() {
                        assert(right@[j - 1] == r@[k]);
                    } else {
                        assert(r@[k] == before[k]);
                    }
                }
            }
        }
    }
    r
}

fn order_range<T: Ranked>(items: &Vec<T>, lo: usize, hi: usize) -> (r: Vec<usize>)
    requires
        lo <= hi <= items@.len(),
    ensures
        order_of_range(items@, lo as int, hi as int, r@),
    decreases hi - lo,
{
    if hi - lo <= 1 {
        let mut r: Vec<usize> = Vec::new();
        if lo < hi {
            r.push(lo);
        }
        r
    } else {
        let mid: usize = lo + (hi - lo) / 2;
        let left = order_range(items, lo, mid);
        let right = order_range(items, mid, hi);
        merge(items, &left, &right, lo, mid, hi)
    }
}

/// The stable order of `items`.
pub fn ordered<T: Ranked>(items: &Vec<T>) -> (r: Vec<usize>)
    ensures
        is_order(items@, r@),
{
    order_range(items, 0, items.len())
}

/// A score, and a number that decides between equal scores. The higher score
/// comes first, and of equal scores the higher number.
#[derive(Clone, Copy, Debug, PartialEq, Eq, Structural)]
pub struct Rank {
    pub score: u64,
    pub recency: u64,
}

impl Ranked for Rank {
    open spec fn ahead(self, other: Self) -> bool {
        self.score > other.score || (self.score == other.score && self.recency >= other.recency)
    }

    proof fn ahead_total(a: Self, b: Self) {
    }

    proof fn ahead_transitive(a: Self, b: Self, c: Self) {
    }

    fn is_ahead(&self, other: &Self) -> (r: bool) {
        self.score > other.score || (self.score == other.score && self.recency >= other.recency)
    }
}

/// A raw score, the higher first.
impl Ranked for i64 {
    open spec fn ahead(self, other: Self) -> bool {
        self >= other
    }

    proof fn ahead_total(a: Self, b: Self) {
    }

    proof fn ahead_transitive(a: Self, b: Self, c: Self) {
    }

    fn is_ahead(&self, other: &Self) -> (r: bool) {
        *self >= *other
    }
}

/// Whether text `a` comes no later than text `b` when compared character by
/// character.
pub open spec fn text_le(a: Seq<char>, b: Seq<char>) -> bool
    decreases a.len(),
{
    if a.len() == 0 {
        true
    } else if b.len() == 0 {
        false
    } else if a[0] != b[0] {
        a[0] < b[0]
    } else {
        text_le(a.skip(1), b.skip(1))
    }
}

proof fn lemma_text_le_total(a: Seq<char>, b: Seq<char>)
    ensures
        text_le(a, b) || text_le(b, a),
    decreases a.len(),
{
    if a.len() > 0 && b.len() > 0 {
        lemma_text_le_total(a.skip(1), b.skip(1));
    }
}

proof fn lemma_text_le_transitive(a: Seq<char>, b: Seq<char>, c: Seq<char>)
    requires
        text_le(a, b),
        text_le(b, c),
    ensures
        text_le(a, c),
    decreases a.len(),
{
    if a.len() > 0 && b.len() > 0 && c.len() > 0 && a[0] == b[0] && b[0] == c[0] {
        lemma_text_le_transitive(a.skip(1), b.skip(1), c.skip(1));
    }
}

/// Texts that come no later than each other are the same.
pub proof fn lemma_text_le_antisymmetric(a: Seq<char>, b: Seq<char>)
    requires
        text_le(a, b),
        text_le(b, a),
    ensures
        a == b,
    decreases a.len(),
{
    if a.len() > 0 && b.len() > 0 {
        lemma_text_le_antisymmetric(a.skip(1), b.skip(1));
        assert(a =~= seq![a[0]] + a.skip(1));
        assert(b =~= seq![b[0]] + b.skip(1));
    } else {
        assert(a =~= b);
    }
}

/// A name, ordered by its characters.
impl Ranked for String {
    open spec fn ahead(self, other: Self) -> bool {
        text_le(self@, other@)
    }

    proof fn ahead_total(a: Self, b: Self) {
        lemma_text_le_total(a@, b@);
    }

    proof fn ahead_transitive(a: Self, b: Self, c: Self) {
        lemma_text_le_transitive(a@, b@, c@);
    }

    fn is_ahead(&self, other: &Self) -> (r: bool) {
        let a = chars_of(self.as_str());
        let b = chars_of(other.as_str());
        let mut i: usize = 0;
        proof {
            assert(a@.skip(0) =~= a@);
            assert(b@.skip(0) =~= b@);
        }
        while i < a.len() && i < b.len() && a[i] == b[i]
            invariant
                i <= a@.len(),
                i <= b@.len(),
                a@ == self@,
                b@ == other@,
                text_le(a@.skip(i as int), b@.skip(i as int)) == text_le(a@, b@),
            decreases a@.len() - i,
        {
            proof {
                assert(a@.skip(i as int).skip(1) =~= a@.skip(i + 1));
                assert(b@.skip(i as int).skip(1) =~= b@.skip(i + 1));
            }
            i = i + 1;
        }
        if i == a.len() {
            true
        } else if i == b.len() {
            false
        } else {
            a[i] < b[i]
        }
    }
}

/// Whether the names stand in ascending order.
pub open spec fn ascending(names: Seq<Seq<char>>) -> bool {
    forall|i: int, j: int|
        0 <= i < j < names.len() ==> text_le(#[trigger] names[i], #[trigger] names[j])
}

/// The names in ascending order.
pub fn sort_names(names: &Vec<String>) -> (r: Vec<String>)
    ensures
        ascending(texts(r@)),
        texts(r@).to_multiset() == texts(names@).to_multiset(),
        r@.len() == names@.len(),
{
    let order = ordered(names);
    let n: usize = order.len();
    let mut r: Vec<String> = Vec::new();
    for i in 0..n
        invariant
            n == order@.len(),
            is_order(names@, order@),
            r@.len() == i,
            forall|k: int| 0 <= k < i ==> r@[k]@ == names@[order@[k] as int]@,
    {
        r.push(names[order[i]].clone());
    }
    proof {
        let place = order@.map_values(|x: usize| x as int);
        lemma_reordered(texts(names@), texts(r@), place);
        assert forall|i: int, j: int| 0 <= i < j < texts(r@).len() implies text_le(
            #[trigger] texts(r@)[i],
            #[trigger] texts(r@)[j],
        ) by {
            assert(order@[i] != order@[j]);
        }
    }
    r
}

/// A sequence that takes each item of another once holds the same items.
pub proof fn lemma_reordered<A>(s: Seq<A>, t: Seq<A>, place: Seq<int>)
    requires
        s.len() == t.len(),
        s.len() == place.len(),
        place.no_duplicates(),
        forall|i: int| 0 <= i < place.len() ==> 0 <= #[trigger] place[i] < s.len(),
        forall|i: int| 0 <= i < t.len() ==> #[trigger] t[i] == s[place[i]],
    ensures
        t.to_multiset() == s.to_multiset(),
    decreases s.len(),
{
    broadcast use vstd::seq_lib::group_to_multiset_ensures;

    if s.len() == 0 {
        assert(s =~= t);
    } else {
        let p = place.last();
        let s2 = s.remove(p);
        let t2 = t.drop_last();
        let place2 = Seq::new(
            (place.len() - 1) as nat,
            |i: int|
                if place[i] > p {
                    place[i] - 1
                } else {
                    place[i]
                },
        );
        assert forall|i: int| 0 <= i < place2.len() implies 0 <= #[trigger] place2[i] < s2.len()
            && t2[i] == s2[place2[i]] by {
            assert(place[i] != place[place.len() - 1]);
            assert(t[i] == s[place[i]]);
        }
        assert(place2.no_duplicates()) by {
            assert forall|i: int, j: int|
                0 <= i < place2.len() && 0 <= j < place2.len() && i != j implies place2[i]
                != place2[j] by {
                assert(place[i] != place[j]);
                assert(place[i] != place[place.len() - 1]);
                assert(place[j] != place[place.len() - 1]);
            }
        }
        lemma_reordered(s2, t2, place2);
        assert(t =~= t2.push(s[p]));
        assert(t.to_multiset() =~= t2.to_multiset().insert(s[p]));
        assert(s2.to_multiset() =~= s.to_multiset().remove(s[p]));
        assert(s.to_multiset().count(s[p]) > 0) by {
            assert(s.contains(s[p]));
        }
        assert(t.to_multiset() =~= s.to_multiset());
    }
}

/// What a filter keeps was there and passed.
pub proof fn lemma_filter_within<A>(s: Seq<A>, pred: spec_fn(A) -> bool, x: A)
    requires
        s.filter(pred).contains(x),
    ensures
        s.contains(x),
        pred(x),
    decreases s.len(),
{
    reveal(Seq::filter);
    if s.len() > 0 {
        let rest = s.drop_last();
        let k = s.filter(pred).index_of(x);
        if pred(s.last()) && k == rest.filter(pred).len() {
            assert(s[s.len() - 1] == x);
        } else {
            assert(rest.filter(pred)[k] == x);
            lemma_filter_within(rest, pred, x);
            let j = rest.index_of(x);
            assert(s[j] == x);
        }
    }
}

} // verus!
