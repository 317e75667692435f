//! What taking texts apart and putting them together promises.

use crate::text::{
    all_chars, chomp, decimal_of, digit_of, ends, find_of, first_at, first_of, i64_of, is_space,
    join_of, lemma_decimal, lemma_find, lemma_first_at, lemma_lines_front, lemma_lines_single,
    lemma_one_word, lines_of, not_space, number_of, occurs, padded, signed_of, split_of, stands_at,
    starts, trim_end_of, trim_of, trim_start_of, unsigned_of, unsigned_up_to, without_copies,
    without_prefix, without_prefixes, without_suffix, without_suffixes, word_len, words_of,
};
use vstd::prelude::*;

verus! {

/// The white space characters are those with the Unicode property of that name.
pub proof fn white_space_is_that_of_unicode(c: char)
    ensures
        is_space(c) <==> (c == '\t' || c == '\n' || c == '\u{b}' || c == '\u{c}' || c == '\r' || c
            == ' ' || c == '\u{85}' || c == '\u{a0}' || c == '\u{1680}' || ('\u{2000}' <= c && c
            <= '\u{200a}') || c == '\u{2028}' || c == '\u{2029}' || c == '\u{202f}' || c
            == '\u{205f}' || c == '\u{3000}'),
{
}

/// A text starts with another where its first characters are those, ends with it
/// where its last are, and holds it where it stands at some place.
pub proof fn parts_stand_at_places(s: Seq<char>, p: Seq<char>)
    ensures
        starts(s, p) <==> p.len() <= s.len() && s.take(p.len() as int) == p,
        ends(s, p) <==> p.len() <= s.len() && s.skip(s.len() - p.len()) == p,
        occurs(s, p) <==> exists|i: int|
            0 <= i && i + p.len() <= s.len() && #[trigger] s.subrange(i, i + p.len()) == p,
{
    if p.len() <= s.len() {
        assert(s.subrange(0, p.len() as int) =~= s.take(p.len() as int));
        assert(s.subrange(s.len() - p.len(), s.len() as int) =~= s.skip(s.len() - p.len()));
    }
    if occurs(s, p) {
        let i = choose|i: int| stands_at(s, i, p);
        assert(s.subrange(i, i + p.len()) == p);
    }
    if exists|i: int|
        0 <= i && i + p.len() <= s.len() && #[trigger] s.subrange(i, i + p.len()) == p {
        let i = choose|i: int|
            0 <= i && i + p.len() <= s.len() && #[trigger] s.subrange(i, i + p.len()) == p;
        assert(stands_at(s, i, p));
    }
}

/// What a text is made of occurs in it, wherever it stands.
pub proof fn part_occurs(a: Seq<char>, p: Seq<char>, b: Seq<char>)
    ensures
        occurs(a + p + b, p),
        starts(p + b, p),
        ends(a + p, p),
{
    let s = a + p + b;
    assert(s.subrange(a.len() as int, (a.len() + p.len()) as int) =~= p);
    assert(stands_at(s, a.len() as int, p));
    assert((p + b).subrange(0, p.len() as int) =~= p);
    let t = a + p;
    assert(t.subrange(t.len() - p.len(), t.len() as int) =~= p);
}

proof fn lemma_trim_start(s: Seq<char>) -> (i: int)
    ensures
        0 <= i <= s.len(),
        trim_start_of(s) == s.skip(i),
        forall|k: int| 0 <= k < i ==> is_space(#[trigger] s[k]),
        i < s.len() ==> !is_space(s[i]),
    decreases s.len(),
{
    if s.len() > 0 && is_space(s[0]) {
        let rest = s.skip(1);
        let i = lemma_trim_start(rest);
        assert forall|k: int| 0 <= k < i + 1 implies is_space(#[trigger] s[k]) by {
            if k > 0 {
                assert(rest[k - 1] == s[k]);
            }
        }
        if i < rest.len() {
            assert(rest[i] == s[i + 1]);
        }
        assert(rest.skip(i) =~= s.skip(i + 1));
        i + 1
    } else {
        assert(s.skip(0) =~= s);
        0
    }
}

proof fn lemma_trim_end(s: Seq<char>) -> (j: int)
    ensures
        0 <= j <= s.len(),
        trim_end_of(s) == s.take(j),
        forall|k: int| j <= k < s.len() ==> is_space(#[trigger] s[k]),
        j > 0 ==> !is_space(s[j - 1]),
    decreases s.len(),
{
    if s.len() > 0 && is_space(s.last()) {
        let rest = s.drop_last();
        let j = lemma_trim_end(rest);
        assert forall|k: int| j <= k < s.len() implies is_space(#[trigger] s[k]) by {
            if k < rest.len() {
                assert(rest[k] == s[k]);
            }
        }
        assert(rest.take(j) =~= s.take(j));
        j
    } else {
        assert(s.take(s.len() as int) =~= s);
        s.len() as int
    }
}

/// Trimming takes off white space at the ends, all of it, and nothing else.
pub proof fn trimming_takes_off_white_space(s: Seq<char>)
    ensures
        exists|i: int, j: int|
            {
                &&& 0 <= i <= j <= s.len()
                &&& trim_of(s) == #[trigger] s.subrange(i, j)
                &&& forall|k: int| 0 <= k < i || j <= k < s.len() ==> is_space(#[trigger] s[k])
                &&& i < j ==> !is_space(s[i]) && !is_space(s[j - 1])
            },
{
    let i = lemma_trim_start(s);
    let t = s.skip(i);
    let n = lemma_trim_end(t);
    let j = i + n;
    assert(t.take(n) =~= s.subrange(i, j));
    assert forall|k: int| 0 <= k < i || j <= k < s.len() implies is_space(#[trigger] s[k]) by {
        if j <= k {
            assert(t[k - i] == s[k]);
        }
    }
    if i < j {
        assert(t[n - 1] == s[j - 1]);
        assert(t.len() > 0);
    }
    assert(trim_of(s) == s.subrange(i, j));
}

/// Joined parts stand one after the other, with the separator between each two.
pub proof fn joining_puts_parts_in_order(parts: Seq<Seq<char>>, sep: Seq<char>, more: Seq<char>)
    ensures
        join_of(Seq::empty(), sep) == Seq::<char>::empty(),
        join_of(seq![more], sep) == more,
        parts.len() > 0 ==> join_of(parts.push(more), sep) == join_of(parts, sep) + sep + more,
{
    assert(parts.push(more).drop_last() =~= parts);
}

proof fn lemma_join_cons(a: Seq<char>, rest: Seq<Seq<char>>, sep: Seq<char>)
    requires
        rest.len() > 0,
    ensures
        join_of(seq![a] + rest, sep) == a + sep + join_of(rest, sep),
{
    let parts = seq![a] + rest;
    crate::text::lemma_join_front(parts, sep);
    assert(parts.skip(1) =~= rest);
}

/// The parts of a text between the occurrences of a character do not hold it, and
/// joined with it they are the text.
pub proof fn parts_joined_are_the_text(s: Seq<char>, c: char)
    ensures
        split_of(s, c).len() > 0,
        join_of(split_of(s, c), seq![c]) == s,
        forall|i: int| 0 <= i < split_of(s, c).len() ==> !(#[trigger] split_of(s, c)[i]).contains(c),
    decreases s.len(),
{
    lemma_first_at(s, c);
    let i = first_at(s, c);
    if i < s.len() {
        let rest = s.skip(i + 1);
        parts_joined_are_the_text(rest, c);
        let parts = split_of(rest, c);
        assert(split_of(s, c) == seq![s.take(i)] + parts);
        lemma_join_cons(s.take(i), parts, seq![c]);
        assert(s =~= s.take(i) + seq![c] + rest);
        assert forall|k: int| 0 <= k < split_of(s, c).len() implies !(
        #[trigger] split_of(s, c)[k]).contains(c) by {
            if k == 0 {
                assert(split_of(s, c)[0] == s.take(i));
                if s.take(i).contains(c) {
                    let m = s.take(i).index_of(c);
                    assert(s[m] == c);
                }
            } else {
                assert(split_of(s, c)[k] == parts[k - 1]);
            }
        }
    } else {
        assert(split_of(s, c) == seq![s]);
        assert(join_of(seq![s], seq![c]) == s);
    }
}

/// Joining texts that do not hold a character with it, and splitting at it,
/// gives the texts back.
pub proof fn joined_texts_are_split_again(parts: Seq<Seq<char>>, c: char)
    requires
        parts.len() > 0,
        forall|i: int| 0 <= i < parts.len() ==> !(#[trigger] parts[i]).contains(c),
    ensures
        split_of(join_of(parts, seq![c]), c) == parts,
    decreases parts.len(),
{
    if parts.len() == 1 {
        let s = parts[0];
        lemma_first_at(s, c);
        assert(join_of(parts, seq![c]) == s);
        assert(split_of(s, c) =~= parts);
    } else {
        let rest = parts.skip(1);
        crate::text::lemma_join_front(parts, seq![c]);
        assert forall|i: int| 0 <= i < rest.len() implies !(#[trigger] rest[i]).contains(c) by {
            assert(rest[i] == parts[i + 1]);
        }
        joined_texts_are_split_again(rest, c);
        crate::text::lemma_split_front(parts[0], c, join_of(rest, seq![c]));
        assert(seq![parts[0]] + rest =~= parts);
    }
}

/// A line feed ends a line; a carriage return before it belongs to it; what
/// follows the last line feed is a line where it is not empty.
pub proof fn line_feeds_end_lines(a: Seq<char>, b: Seq<char>)
    requires
        !a.contains('\n'),
    ensures
        a.len() == 0 || a.last() != '\r' ==> lines_of(a + seq!['\n'] + b) == seq![a] + lines_of(b),
        lines_of(a + seq!['\r', '\n'] + b) == seq![a] + lines_of(b),
        lines_of(a) == (if a.len() == 0 {
            Seq::<Seq<char>>::empty()
        } else {
            seq![a]
        }),
{
    lemma_lines_front(a, b);
    lemma_lines_single(a);
    let r = a.push('\r');
    assert(!r.contains('\n')) by {
        if r.contains('\n') {
            let k = r.index_of('\n');
            assert(a[k] == '\n');
        }
    }
    assert(r + seq!['\n'] + b =~= a + seq!['\r', '\n'] + b);
    lemma_lines_front(r, b);
    assert(chomp(r) =~= a);
}

proof fn lemma_word_len_is(s: Seq<char>, k: int)
    requires
        0 <= k <= s.len(),
        forall|i: int| 0 <= i < k ==> !is_space(#[trigger] s[i]),
        k < s.len() ==> is_space(s[k]),
    ensures
        word_len(s) == k,
    decreases s.len(),
{
    if k > 0 {
        let rest = s.skip(1);
        assert forall|i: int| 0 <= i < k - 1 implies !is_space(#[trigger] rest[i]) by {
            assert(rest[i] == s[i + 1]);
        }
        lemma_word_len_is(rest, k - 1);
        assert(!is_space(s[0]));
    }
}

/// White space sets words apart: the words of two texts with white space between
/// them are the words of the one and then those of the other.
pub proof fn white_space_sets_words_apart(a: Seq<char>, c: char, b: Seq<char>)
    requires
        is_space(c),
    ensures
        words_of(a + seq![c] + b) == words_of(a) + words_of(b),
        words_of(Seq::empty()) == Seq::<Seq<char>>::empty(),
    decreases a.len(),
{
    let s = a + seq![c] + b;
    if a.len() == 0 {
        assert(s.skip(1) =~= b);
        assert(words_of(s) == words_of(b));
        assert(words_of(a) + words_of(b) =~= words_of(b));
    } else if is_space(a[0]) {
        white_space_sets_words_apart(a.skip(1), c, b);
        assert(s.skip(1) =~= a.skip(1) + seq![c] + b);
    } else {
        let k = lemma_word_end(a);
        assert forall|i: int| 0 <= i < k implies !is_space(#[trigger] s[i]) by {
            assert(s[i] == a[i]);
        }
        assert(s[k] == (if k < a.len() {
            a[k]
        } else {
            c
        }));
        assert(!is_space(s[0]));
        assert(k > 0);
        lemma_word_len_is(s, k);
        lemma_word_len_is(a, k);
        white_space_sets_words_apart(a.skip(k), c, b);
        assert(s.skip(k) =~= a.skip(k) + seq![c] + b);
        assert(s.take(k) =~= a.take(k));
        assert(words_of(s) =~= words_of(a) + words_of(b));
    }
}

proof fn lemma_word_end(s: Seq<char>) -> (k: int)
    ensures
        0 <= k <= s.len(),
        forall|i: int| 0 <= i < k ==> !is_space(#[trigger] s[i]),
        k < s.len() ==> is_space(s[k]),
        s.len() > 0 && !is_space(s[0]) ==> k > 0,
    decreases s.len(),
{
    if s.len() > 0 && !is_space(s[0]) {
        let rest = s.skip(1);
        let k = lemma_word_end(rest);
        assert forall|i: int| 0 <= i < k + 1 implies !is_space(#[trigger] s[i]) by {
            if i > 0 {
                assert(rest[i - 1] == s[i]);
            }
        }
        if k < rest.len() {
            assert(rest[k] == s[k + 1]);
        }
        k + 1
    } else {
        0
    }
}

/// A text without white space is one word.
pub proof fn text_without_white_space_is_a_word(s: Seq<char>)
    requires
        s.len() > 0,
        forall|i: int| 0 <= i < s.len() ==> !is_space(#[trigger] s[i]),
    ensures
        words_of(s) == seq![s],
{
    assert(all_chars(s, not_space())) by {
        assert forall|i: int| 0 <= i < s.len() implies not_space()(#[trigger] s[i]) by {
            assert(!is_space(s[i]));
        }
    }
    lemma_one_word(s);
}

/// All copies of a text at the start of another are taken off, and nothing else.
pub proof fn copies_at_the_start_are_taken_off(p: Seq<char>, s: Seq<char>)
    requires
        p.len() > 0,
    ensures
        without_prefixes(p + s, p) == without_prefixes(s, p),
        !(p.len() <= s.len() && s.take(p.len() as int) == p) ==> without_prefixes(s, p) == s,
{
    parts_stand_at_places(s, p);
    part_occurs(Seq::empty(), p, s);
    assert((p + s).skip(p.len() as int) =~= s);
}

/// All copies of a text at the end of another are taken off, and nothing else.
pub proof fn copies_at_the_end_are_taken_off(s: Seq<char>, p: Seq<char>)
    requires
        p.len() > 0,
    ensures
        without_suffixes(s + p, p) == without_suffixes(s, p),
        !(p.len() <= s.len() && s.skip(s.len() - p.len()) == p) ==> without_suffixes(s, p) == s,
{
    parts_stand_at_places(s, p);
    part_occurs(s, p, Seq::empty());
    assert((s + p).take(s.len() as int) =~= s);
}

/// A number in decimal has no leading zeros, and the digits `0` to `9` only.
pub proof fn decimals_have_no_leading_zeros(n: nat)
    ensures
        decimal_of(n).len() > 0,
        decimal_of(n).len() > 1 ==> decimal_of(n)[0] != '0',
        n < 10 ==> decimal_of(n).len() == 1,
        forall|i: int| 0 <= i < decimal_of(n).len() ==> '0' <= #[trigger] decimal_of(n)[i] <= '9',
        n > 0 ==> decimal_of(n)[0] != '0',
    decreases n,
{
    lemma_decimal(n);
    if n >= 10 {
        decimals_have_no_leading_zeros(n / 10);
        assert(decimal_of(n)[0] == decimal_of(n / 10)[0]);
    } else {
        assert(decimal_of(n)[0] == digit_of(n));
    }
    assert forall|i: int| 0 <= i < decimal_of(n).len() implies '0' <= #[trigger] decimal_of(n)[i]
        <= '9' by {
        assert(crate::text::is_digit(decimal_of(n)[i]));
    }
}

/// A digit more makes ten times the number and the digit.
pub proof fn digits_count_by_tens(s: Seq<char>, c: char)
    ensures
        number_of(Seq::empty()) == 0,
        '0' <= c <= '9' ==> number_of(s.push(c)) == 10 * number_of(s) + (c as u32 - '0' as u32),
{
    assert(s.push(c).drop_last() =~= s);
}

/// A number in decimal is read back, with a sign or without one.
pub proof fn decimals_are_read_back(n: nat)
    ensures
        unsigned_of(decimal_of(n)) == Some(n),
        unsigned_of(seq!['+'] + decimal_of(n)) == Some(n),
        signed_of(decimal_of(n)) == Some(n as int),
        signed_of(seq!['-'] + decimal_of(n)) == Some(-(n as int)),
{
    lemma_decimal(n);
    decimals_have_no_leading_zeros(n);
    let d = decimal_of(n);
    assert('0' <= d[0] <= '9');
    assert((seq!['+'] + d).skip(1) =~= d);
    assert((seq!['-'] + d).skip(1) =~= d);
}

/// Nothing but digits, after one sign or none, is read as a number.
pub proof fn only_digits_are_numbers(s: Seq<char>, i: int)
    requires
        0 <= i < s.len(),
        i > 0 || (s[0] != '+' && s[0] != '-'),
        s[i] < '0' || s[i] > '9',
    ensures
        unsigned_of(s) is None,
        signed_of(s) is None,
        unsigned_of(Seq::empty()) is None,
{
    if i > 0 {
        assert(s.skip(1)[i - 1] == s[i]);
        assert(!crate::text::is_digit(s.skip(1)[i - 1]));
    }
    assert(!crate::text::is_digit(s[i]));
}

/// Digits are read as the number that they make, whether it begins with zeros or
/// not, after a sign or without one.
pub proof fn digits_are_numbers(s: Seq<char>)
    requires
        s.len() > 0,
        forall|i: int| 0 <= i < s.len() ==> '0' <= #[trigger] s[i] <= '9',
    ensures
        unsigned_of(s) == Some(number_of(s)),
        unsigned_of(seq!['+'] + s) == Some(number_of(s)),
        signed_of(s) == Some(number_of(s) as int),
        signed_of(seq!['+'] + s) == Some(number_of(s) as int),
        signed_of(seq!['-'] + s) == Some(-(number_of(s) as int)),
{
    assert('0' <= s[0] <= '9');
    assert((seq!['+'] + s).skip(1) =~= s);
    assert((seq!['-'] + s).skip(1) =~= s);
}

/// A number is read up to the highest that fits, and not beyond.
pub proof fn numbers_that_fit_are_read(s: Seq<char>, max: nat)
    ensures
        unsigned_of(s) is Some && unsigned_of(s)->0 <= max ==> unsigned_up_to(s, max)
            == unsigned_of(s),
        unsigned_of(s) is None || unsigned_of(s)->0 > max ==> unsigned_up_to(s, max) is None,
        signed_of(s) is Some && -0x8000_0000_0000_0000 <= signed_of(s)->0 <= 0x7fff_ffff_ffff_ffff
            ==> i64_of(s) == signed_of(s),
        signed_of(s) is None || signed_of(s)->0 < -0x8000_0000_0000_0000 || signed_of(s)->0
            > 0x7fff_ffff_ffff_ffff ==> i64_of(s) is None,
{
}

/// A text is found at the first place at which it stands, and at none where it
/// stands nowhere.
pub proof fn texts_are_found_at_their_first_place(s: Seq<char>, p: Seq<char>, i: int)
    ensures
        0 <= i && i + p.len() <= s.len() && s.subrange(i, i + p.len()) == p ==> find_of(s, p) is Some
            && 0 <= find_of(s, p)->0 <= i,
        find_of(s, p) is Some ==> ({
            let k = find_of(s, p)->0;
            0 <= k && k + p.len() <= s.len() && s.subrange(k, k + p.len()) == p
        }),
{
    lemma_find(s, p);
    if 0 <= i && i + p.len() <= s.len() && s.subrange(i, i + p.len()) == p {
        assert(stands_at(s, i, p));
    }
}

/// What follows a text at the start of another, and what precedes one at the end.
pub proof fn parts_at_the_ends_are_taken_off(p: Seq<char>, s: Seq<char>)
    ensures
        without_prefix(p + s, p) == Some(s),
        without_suffix(s + p, p) == Some(s),
        !(p.len() <= s.len() && s.take(p.len() as int) == p) ==> without_prefix(s, p) is None,
        !(p.len() <= s.len() && s.skip(s.len() - p.len()) == p) ==> without_suffix(s, p) is None,
{
    parts_stand_at_places(s, p);
    part_occurs(Seq::empty(), p, s);
    part_occurs(s, p, Seq::empty());
    assert((p + s).skip(p.len() as int) =~= s);
    assert((s + p).take(s.len() as int) =~= s);
}

/// The first of a list are as many as were asked for, or all where there are
/// fewer.
pub proof fn first_items_come_from_the_start(s: Seq<Seq<char>>, n: int)
    requires
        n >= 0,
    ensures
        first_of(s, n).len() == (if s.len() < n {
            s.len() as int
        } else {
            n
        }),
        forall|i: int| 0 <= i < first_of(s, n).len() ==> #[trigger] first_of(s, n)[i] == s[i],
{
}

/// Zeros are put before a text until it is as wide as asked for.
pub proof fn zeros_fill_the_width(s: Seq<char>, width: nat)
    ensures
        s.len() >= width ==> padded(s, width) == s,
        s.len() < width ==> padded(s, width).len() == width && padded(s, width).skip(
            width - s.len(),
        ) == s && forall|i: int| 0 <= i < width - s.len() ==> #[trigger] padded(s, width)[i] == '0',
{
    if s.len() < width {
        assert(padded(s, width).skip(width - s.len()) =~= s);
    }
}

/// A text without copies of another: each copy goes, and what stands between
/// stays.
pub proof fn copies_are_taken_out(p: Seq<char>, c: char, s: Seq<char>)
    requires
        p.len() > 0,
    ensures
        without_copies(Seq::empty(), p) == Seq::<char>::empty(),
        without_copies(p + s, p) == without_copies(s, p),
        c != p[0] ==> without_copies(seq![c] + s, p) == seq![c] + without_copies(s, p),
{
    part_occurs(Seq::empty(), p, s);
    assert((p + s).skip(p.len() as int) =~= s);
    let t = seq![c] + s;
    assert(t.skip(1) =~= s);
    if starts(t, p) {
        assert(t.subrange(0, p.len() as int)[0] == t[0]);
    }
}

} // verus!
