//! Text as sequences of characters.
//!
//! The rest of the crate reads and builds strings through this module: a
//! `&str` is taken apart into characters once, worked on as a slice, and put
//! together again. Every function is stated against a spec function of the
//! same meaning over `Seq<char>`.

use vstd::prelude::*;
use vstd::slice::slice_subrange;
use vstd::string::*;

verus! {

broadcast use vstd::slice::group_slice_axioms;

/// `String::push` of std: appends one character.
pub assume_specification[ String::push ](s: &mut String, c: char)
    ensures
        final(s)@ == old(s)@.push(c),
;

/// What `str::to_lowercase` gives for a text that is not all ASCII.
pub uninterp spec fn unicode_lowercase(s: Seq<char>) -> Seq<char>;

/// The lower-case form of one ASCII character; every other character is itself.
pub open spec fn ascii_lower(c: char) -> char {
    if 'A' <= c && c <= 'Z' {
        ((c as u32 + 32) as u32) as char
    } else {
        c
    }
}

/// A text in lower case. In ASCII text the letters `A` to `Z` are lowered and
/// nothing else changes.
pub open spec fn lowercase(s: Seq<char>) -> Seq<char> {
    if vstd::utf8::is_ascii_chars(s) {
        s.map_values(|c: char| ascii_lower(c))
    } else {
        unicode_lowercase(s)
    }
}

/// `str::to_lowercase` of std. The result depends on the text alone: on ASCII
/// text it is the text with its letters lowered, on other text it is called
/// `unicode_lowercase`.
pub assume_specification[ str::to_lowercase ](s: &str) -> (r: String)
    ensures
        r@ == lowercase(s@),
        !vstd::utf8::is_ascii_chars(s@) ==> r@ == unicode_lowercase(s@),
;

/// What `char::is_alphanumeric` answers for a character that is not ASCII.
pub uninterp spec fn unicode_alphanumeric(c: char) -> bool;

/// Whether a character is alphanumeric. Of the ASCII characters the letters
/// and the digits are.
pub open spec fn alphanumeric(c: char) -> bool {
    if (c as u32) < 128 {
        ('0' <= c && c <= '9') || ('A' <= c && c <= 'Z') || ('a' <= c && c <= 'z')
    } else {
        unicode_alphanumeric(c)
    }
}

/// `char::is_alphanumeric` of std. The answer depends on the character alone:
/// of the ASCII characters it is yes for the letters and the digits, for other
/// characters it is called `unicode_alphanumeric`.
pub assume_specification[ char::is_alphanumeric ](c: char) -> (r: bool)
    ensures
        r == alphanumeric(c),
        (c as u32) >= 128 ==> r == unicode_alphanumeric(c),
;

/// The first `n` items, or all of them where there are fewer.
pub open spec fn first_of<A>(s: Seq<A>, n: int) -> Seq<A> {
    if s.len() <= n {
        s
    } else {
        s.take(n)
    }
}

/// The texts of a sequence of strings.
pub open spec fn texts(v: Seq<String>) -> Seq<Seq<char>> {
    v.map_values(|s: String| s@)
}

/// The texts of a sequence of character vectors.
pub open spec fn pieces(v: Seq<Vec<char>>) -> Seq<Seq<char>> {
    v.map_values(|s: Vec<char>| s@)
}

/// The characters of `s`.
pub fn chars_of(s: &str) -> (r: Vec<char>)
    ensures
        r@ == s@,
{
    let mut v: Vec<char> = Vec::new();
    for c in it: s.chars()
        invariant
            it.seq() == s@,
            v@ == s@.take(it.index() as int),
    {
        proof {
            assert(s@.take(it.index() + 1) == s@.take(it.index() as int).push(
                s@[it.index() as int],
            ));
        }
        v.push(c);
    }
    proof {
        assert(s@.take(s@.len() as int) == s@);
    }
    v
}

/// The string with the given characters.
pub fn string_of(s: &[char]) -> (r: String)
    ensures
        r@ == s@,
{
    let mut r = String::new();
    let n: usize = s.len();
    for i in 0..n
        invariant
            n == s@.len(),
            r@ == s@.take(i as int),
    {
        proof {
            assert(s@.take(i + 1) == s@.take(i as int).push(s@[i as int]));
        }
        r.push(s[i]);
    }
    proof {
        assert(s@.take(n as int) == s@);
    }
    r
}

/// A vector with the given characters.
pub fn copy_of(s: &[char]) -> (r: Vec<char>)
    ensures
        r@ == s@,
{
    let mut r: Vec<char> = Vec::new();
    let n: usize = s.len();
    for i in 0..n
        invariant
            n == s@.len(),
            r@ == s@.take(i as int),
    {
        proof {
            assert(s@.take(i + 1) == s@.take(i as int).push(s@[i as int]));
        }
        r.push(s[i]);
    }
    proof {
        assert(s@.take(n as int) == s@);
    }
    r
}

/// Whether two texts are the same.
pub fn same(a: &[char], b: &[char]) -> (r: bool)
    ensures
        r == (a@ == b@),
{
    if a.len() != b.len() {
        return false;
    }
    let n: usize = a.len();
    for i in 0..n
        invariant
            n == a@.len(),
            n == b@.len(),
            forall|j: int| 0 <= j < i ==> a@[j] == b@[j],
    {
        if a[i] != b[i] {
            return false;
        }
    }
    proof {
        assert(a@ =~= b@);
    }
    true
}

/// Whether two strings are the same.
pub fn same_str(a: &str, b: &str) -> (r: bool)
    ensures
        r == (a@ == b@),
{
    let x = chars_of(a);
    let y = chars_of(b);
    same(x.as_slice(), y.as_slice())
}

/// Whether the characters `a` are those of `b`.
pub fn same_as(a: &[char], b: &str) -> (r: bool)
    ensures
        r == (a@ == b@),
{
    let y = chars_of(b);
    same(a, y.as_slice())
}

/// Unicode white space: the characters with the property `White_Space`.
pub open spec fn is_space(c: char) -> bool {
    let u = c as u32;
    ||| 9 <= u <= 13
    ||| u == 0x20
    ||| u == 0x85
    ||| u == 0xA0
    ||| u == 0x1680
    ||| 0x2000 <= u <= 0x200A
    ||| u == 0x2028
    ||| u == 0x2029
    ||| u == 0x202F
    ||| u == 0x205F
    ||| u == 0x3000
}

/// Whether `c` is Unicode white space.
pub fn space(c: char) -> (r: bool)
    ensures
        r == is_space(c),
{
    let u: u32 = c as u32;
    (9 <= u && u <= 13) || u == 0x20 || u == 0x85 || u == 0xA0 || u == 0x1680 || (0x2000 <= u && u
        <= 0x200A) || u == 0x2028 || u == 0x2029 || u == 0x202F || u == 0x205F || u == 0x3000
}

/// `s` without its leading white space.
pub open spec fn trim_start_of(s: Seq<char>) -> Seq<char>
    decreases s.len(),
{
    if s.len() > 0 && is_space(s[0]) {
        trim_start_of(s.skip(1))
    } else {
        s
    }
}

/// `s` without its trailing white space.
pub open spec fn trim_end_of(s: Seq<char>) -> Seq<char>
    decreases s.len(),
{
    if s.len() > 0 && is_space(s.last()) {
        trim_end_of(s.drop_last())
    } else {
        s
    }
}

/// `s` without white space at either end.
pub open spec fn trim_of(s: Seq<char>) -> Seq<char> {
    trim_end_of(trim_start_of(s))
}

/// Whether `s` neither starts nor ends with white space.
pub open spec fn is_trimmed(s: Seq<char>) -> bool {
    s.len() > 0 ==> !is_space(s[0]) && !is_space(s.last())
}

/// A text without white space at its ends is left alone by trimming.
pub proof fn lemma_trim_trimmed(s: Seq<char>)
    requires
        is_trimmed(s),
    ensures
        trim_of(s) == s,
        trim_start_of(s) == s,
        trim_end_of(s) == s,
{
}

pub fn trim_start(s: &[char]) -> (r: &[char])
    ensures
        r@ == trim_start_of(s@),
{
    let n: usize = s.len();
    let mut i: usize = 0;
    proof {
        assert(s@.skip(0) == s@);
    }
    while i < n && space(s[i])
        invariant
            i <= n,
            n == s@.len(),
            trim_start_of(s@.skip(i as int)) == trim_start_of(s@),
        decreases n - i,
    {
        proof {
            assert(s@.skip(i as int).skip(1) == s@.skip(i + 1));
        }
        i = i + 1;
    }
    proof {
        assert(s@.subrange(i as int, n as int) == s@.skip(i as int));
    }
    slice_subrange(s, i, n)
}

pub fn trim_end(s: &[char]) -> (r: &[char])
    ensures
        r@ == trim_end_of(s@),
{
    let mut n: usize = s.len();
    proof {
        assert(s@.take(n as int) == s@);
    }
    while n > 0 && space(s[n - 1])
        invariant
            n <= s@.len(),
            trim_end_of(s@.take(n as int)) == trim_end_of(s@),
        decreases n,
    {
        proof {
            assert(s@.take(n as int).drop_last() == s@.take(n - 1));
        }
        n = n - 1;
    }
    proof {
        assert(s@.subrange(0, n as int) == s@.take(n as int));
    }
    slice_subrange(s, 0, n)
}

pub fn trim(s: &[char]) -> (r: &[char])
    ensures
        r@ == trim_of(s@),
{
    trim_end(trim_start(s))
}

/// The index of the first `c` in `s`, or the length of `s` when there is none.
pub open spec fn first_at(s: Seq<char>, c: char) -> int
    decreases s.len(),
{
    if s.len() == 0 {
        0
    } else if s[0] == c {
        0
    } else {
        1 + first_at(s.skip(1), c)
    }
}

pub proof fn lemma_first_at(s: Seq<char>, c: char)
    ensures
        0 <= first_at(s, c) <= s.len(),
        first_at(s, c) < s.len() ==> s[first_at(s, c)] == c,
        forall|i: int| 0 <= i < first_at(s, c) ==> s[i] != c,
        s.contains(c) <==> first_at(s, c) < s.len(),
    decreases s.len(),
{
    if s.len() == 0 {
    } else if s[0] == c {
    } else {
        let t = s.skip(1);
        lemma_first_at(t, c);
        assert forall|i: int| 0 <= i < first_at(s, c) implies s[i] != c by {
            if i > 0 {
                assert(t[i - 1] == s[i]);
            }
        }
        if first_at(s, c) < s.len() {
            assert(t[first_at(t, c)] == s[first_at(s, c)]);
        }
        if s.contains(c) {
            let k = s.index_of(c);
            assert(t[k - 1] == c);
        }
    }
}

/// In `a + [c] + b`, with no `c` in `a`, the first `c` stands right after `a`.
pub proof fn lemma_first_at_after(a: Seq<char>, c: char, b: Seq<char>)
    requires
        !a.contains(c),
    ensures
        first_at(a + seq![c] + b, c) == a.len(),
        (a + seq![c] + b).take(a.len() as int) == a,
        (a + seq![c] + b).skip(a.len() as int + 1) == b,
{
    let s = a + seq![c] + b;
    lemma_first_at(s, c);
    let k = first_at(s, c);
    assert(s[a.len() as int] == c);
    if k < a.len() {
        assert(a[k] == c);
    }
    assert(s.take(a.len() as int) =~= a);
    assert(s.skip(a.len() as int + 1) =~= b);
}

/// The index of the first `c` in `s` at or after `from`.
pub fn find_char(s: &[char], from: usize, c: char) -> (r: usize)
    requires
        from <= s@.len(),
    ensures
        r == from + first_at(s@.skip(from as int), c),
        from <= r <= s@.len(),
{
    let n: usize = s.len();
    let mut i: usize = from;
    while i < n && s[i] != c
        invariant
            from <= i <= n,
            n == s@.len(),
            first_at(s@.skip(from as int), c) == i - from + first_at(s@.skip(i as int), c),
        decreases n - i,
    {
        proof {
            assert(s@.skip(i as int).skip(1) == s@.skip(i + 1));
        }
        i = i + 1;
    }
    i
}

/// The parts of `s` between the occurrences of `c`.
pub open spec fn split_of(s: Seq<char>, c: char) -> Seq<Seq<char>>
    decreases s.len(),
{
    let i = first_at(s, c);
    if 0 <= i < s.len() {
        seq![s.take(i)] + split_of(s.skip(i + 1), c)
    } else {
        seq![s]
    }
}

/// Appending one more piece appends its text.
pub proof fn lemma_pieces_push(v: Seq<Vec<char>>, x: Vec<char>)
    ensures
        pieces(v.push(x)) == pieces(v).push(x@),
{
    assert(pieces(v.push(x)) =~= pieces(v).push(x@));
}

/// Appending one more string appends its text.
pub proof fn lemma_texts_push(v: Seq<String>, x: String)
    ensures
        texts(v.push(x)) == texts(v).push(x@),
{
    assert(texts(v.push(x)) =~= texts(v).push(x@));
}

pub fn split(s: &[char], c: char) -> (r: Vec<Vec<char>>)
    ensures
        pieces(r@) == split_of(s@, c),
{
    let n: usize = s.len();
    let mut r: Vec<Vec<char>> = Vec::new();
    let mut from: usize = 0;
    proof {
        assert(s@.skip(0) == s@);
        assert(pieces(r@) + split_of(s@.skip(0), c) == split_of(s@, c));
    }
    loop
        invariant
            n == s@.len(),
            from <= n,
            pieces(r@) + split_of(s@.skip(from as int), c) == split_of(s@, c),
        decreases n - from,
    {
        let i: usize = find_char(s, from, c);
        let ghost rest = s@.skip(from as int);
        proof {
            lemma_first_at(rest, c);
        }
        let piece = copy_of(slice_subrange(s, from, i));
        let ghost before = r@;
        r.push(piece);
        proof {
            lemma_pieces_push(before, piece);
            assert(piece@ == rest.take(i - from));
        }
        if i == n {
            proof {
                assert(rest.take(i - from) == rest);
                assert(pieces(r@) == pieces(before) + split_of(rest, c));
            }
            return r;
        }
        proof {
            assert(rest.skip(i - from + 1) == s@.skip(i + 1));
            assert(pieces(r@) + split_of(s@.skip(i + 1), c) == pieces(before) + split_of(rest, c));
        }
        from = i + 1;
    }
}

/// A line without the carriage return that ends it.
pub open spec fn chomp(s: Seq<char>) -> Seq<char> {
    if s.len() > 0 && s.last() == '\r' {
        s.drop_last()
    } else {
        s
    }
}

/// The lines of `s`: the parts ended by a line feed, each without the line
/// feed and without a carriage return before it, and what follows the last
/// line feed where that is not empty.
pub open spec fn lines_of(s: Seq<char>) -> Seq<Seq<char>>
    decreases s.len(),
{
    if s.len() == 0 {
        Seq::empty()
    } else {
        let i = first_at(s, '\n');
        if 0 <= i < s.len() {
            seq![chomp(s.take(i))] + lines_of(s.skip(i + 1))
        } else {
            seq![s]
        }
    }
}

pub fn lines(s: &[char]) -> (r: Vec<Vec<char>>)
    ensures
        pieces(r@) == lines_of(s@),
{
    let n: usize = s.len();
    let mut r: Vec<Vec<char>> = Vec::new();
    let mut from: usize = 0;
    proof {
        assert(s@.skip(0) == s@);
        assert(pieces(r@) + lines_of(s@.skip(0)) == lines_of(s@));
    }
    while from < n
        invariant
            n == s@.len(),
            from <= n,
            pieces(r@) + lines_of(s@.skip(from as int)) == lines_of(s@),
        decreases n - from,
    {
        let i: usize = find_char(s, from, '\n');
        let ghost rest = s@.skip(from as int);
        proof {
            lemma_first_at(rest, '\n');
        }
        let ghost before = r@;
        if i == n {
            let piece = copy_of(slice_subrange(s, from, i));
            r.push(piece);
            proof {
                lemma_pieces_push(before, piece);
                assert(piece@ == rest);
                assert(pieces(r@) == pieces(before) + lines_of(rest));
                assert(s@.skip(n as int) == Seq::<char>::empty());
                assert(pieces(r@) + lines_of(s@.skip(n as int)) == pieces(r@));
            }
            from = n;
        } else {
            let end: usize = if i > from && s[i - 1] == '\r' {
                i - 1
            } else {
                i
            };
            let piece = copy_of(slice_subrange(s, from, end));
            r.push(piece);
            proof {
                lemma_pieces_push(before, piece);
                assert(piece@ == chomp(rest.take(i - from)));
                assert(rest.skip(i - from + 1) == s@.skip(i + 1));
                assert(pieces(r@) + lines_of(s@.skip(i + 1)) == pieces(before) + lines_of(rest));
            }
            from = i + 1;
        }
    }
    proof {
        assert(s@.skip(from as int) == Seq::<char>::empty());
        assert(pieces(r@) + lines_of(s@.skip(from as int)) == pieces(r@));
    }
    r
}

/// The decimal digit of `d`.
pub open spec fn digit_of(d: nat) -> char {
    ((48 + d) as u32) as char
}

/// Whether `c` is one of the digits `0` to `9`.
pub open spec fn is_digit(c: char) -> bool {
    '0' <= c && c <= '9'
}

/// The number that a digit stands for.
pub open spec fn digit_value(c: char) -> nat {
    (c as u32 - 48) as nat
}

/// `n` in decimal, without leading zeros.
pub open spec fn decimal_of(n: nat) -> Seq<char>
    decreases n,
{
    if n < 10 {
        seq![digit_of(n)]
    } else {
        decimal_of(n / 10).push(digit_of(n % 10))
    }
}

/// The number that a sequence of digits stands for.
pub open spec fn number_of(s: Seq<char>) -> nat
    decreases s.len(),
{
    if s.len() == 0 {
        0
    } else {
        number_of(s.drop_last()) * 10 + digit_value(s.last())
    }
}

/// Whether `s` is a non-empty sequence of digits.
pub open spec fn all_digits(s: Seq<char>) -> bool {
    s.len() > 0 && forall|i: int| 0 <= i < s.len() ==> is_digit(#[trigger] s[i])
}

/// `s` with zeros put before it until it has `width` characters.
pub open spec fn padded(s: Seq<char>, width: nat) -> Seq<char> {
    if s.len() >= width {
        s
    } else {
        Seq::new((width - s.len()) as nat, |i: int| '0') + s
    }
}

/// A number in decimal is a sequence of digits that stands for it.
pub proof fn lemma_decimal(n: nat)
    ensures
        all_digits(decimal_of(n)),
        number_of(decimal_of(n)) == n,
    decreases n,
{
    if n < 10 {
        let s = seq![digit_of(n)];
        assert(s.drop_last() =~= Seq::<char>::empty());
        assert(number_of(s.drop_last()) == 0);
    } else {
        lemma_decimal(n / 10);
        let p = decimal_of(n / 10);
        let s = p.push(digit_of(n % 10));
        assert(s.drop_last() =~= p);
    }
}

/// Zeros before a number do not change it.
pub proof fn lemma_padded(s: Seq<char>, width: nat)
    requires
        all_digits(s),
    ensures
        all_digits(padded(s, width)),
        number_of(padded(s, width)) == number_of(s),
{
    if s.len() < width {
        lemma_zeros((width - s.len()) as nat, s);
    }
}

proof fn lemma_zeros(k: nat, s: Seq<char>)
    ensures
        number_of(Seq::new(k, |i: int| '0') + s) == number_of(s),
    decreases k + s.len(),
{
    let z = Seq::new(k, |i: int| '0');
    let t = z + s;
    if s.len() > 0 {
        assert(t.drop_last() =~= z + s.drop_last());
        lemma_zeros(k, s.drop_last());
    } else if k > 0 {
        let y = Seq::new((k - 1) as nat, |i: int| '0');
        assert(t.drop_last() =~= y + s);
        lemma_zeros((k - 1) as nat, s);
    } else {
        assert(t =~= s);
    }
}

/// A prefix of digits stands for no larger a number.
proof fn lemma_number_grows(s: Seq<char>, i: int)
    requires
        0 <= i <= s.len(),
    ensures
        number_of(s.take(i)) <= number_of(s),
    decreases s.len() - i,
{
    if i < s.len() {
        lemma_number_grows(s, i + 1);
        assert(s.take(i + 1).drop_last() =~= s.take(i));
    } else {
        assert(s.take(i) =~= s);
    }
}

fn digit(d: u64) -> (r: char)
    requires
        d < 10,
    ensures
        r == digit_of(d as nat),
{
    (48 + d as u8) as char
}

/// `n` in decimal.
pub fn decimal(n: u64) -> (r: Vec<char>)
    ensures
        r@ == decimal_of(n as nat),
    decreases n,
{
    if n < 10 {
        let mut r: Vec<char> = Vec::new();
        r.push(digit(n));
        r
    } else {
        let mut r = decimal(n / 10);
        r.push(digit(n % 10));
        r
    }
}

/// `n` in decimal, as a string.
pub fn number(n: u64) -> (r: String)
    ensures
        r@ == decimal_of(n as nat),
{
    let d = decimal(n);
    string_of(d.as_slice())
}

/// `n` in decimal with at least `width` digits.
pub fn decimal_padded(n: u64, width: usize) -> (r: Vec<char>)
    ensures
        r@ == padded(decimal_of(n as nat), width as nat),
{
    let d = decimal(n);
    let mut r: Vec<char> = Vec::new();
    if d.len() < width {
        let k: usize = width - d.len();
        for i in 0..k
            invariant
                r@ == Seq::new(i as nat, |j: int| '0'),
        {
            r.push('0');
            proof {
                assert(r@ =~= Seq::new((i + 1) as nat, |j: int| '0'));
            }
        }
    } else {
        proof {
            assert(r@ + d@ =~= d@);
        }
    }
    let n_digits: usize = d.len();
    let ghost zeros = r@;
    for i in 0..n_digits
        invariant
            n_digits == d@.len(),
            r@ == zeros + d@.take(i as int),
    {
        r.push(d[i]);
        proof {
            assert(d@.take(i + 1) =~= d@.take(i as int).push(d@[i as int]));
            assert(r@ =~= zeros + d@.take(i + 1));
        }
    }
    proof {
        assert(d@.take(n_digits as int) =~= d@);
    }
    r
}

/// The number that a non-empty sequence of digits stands for.
pub open spec fn digits_of(s: Seq<char>) -> Option<nat> {
    if all_digits(s) {
        Some(number_of(s))
    } else {
        None
    }
}

/// The number that an unsigned decimal stands for: digits, with a `+` before
/// them or not.
pub open spec fn unsigned_of(s: Seq<char>) -> Option<nat> {
    if s.len() > 0 && s[0] == '+' {
        digits_of(s.skip(1))
    } else {
        digits_of(s)
    }
}

/// The number that a decimal with a sign or without one stands for.
pub open spec fn signed_of(s: Seq<char>) -> Option<int> {
    if s.len() > 0 && s[0] == '-' {
        match digits_of(s.skip(1)) {
            Some(n) => Some(-(n as int)),
            None => None,
        }
    } else {
        match unsigned_of(s) {
            Some(n) => Some(n as int),
            None => None,
        }
    }
}

/// A number, where it is at most `max`.
pub open spec fn up_to(n: Option<nat>, max: nat) -> Option<nat> {
    match n {
        Some(k) => if k <= max {
            Some(k)
        } else {
            None
        },
        None => None,
    }
}

/// `unsigned_of`, where the number is at most `max`.
pub open spec fn unsigned_up_to(s: Seq<char>, max: nat) -> Option<nat> {
    up_to(unsigned_of(s), max)
}

/// `signed_of`, where the number fits in 64 bits.
pub open spec fn i64_of(s: Seq<char>) -> Option<int> {
    match signed_of(s) {
        Some(n) => if i64::MIN <= n <= i64::MAX {
            Some(n)
        } else {
            None
        },
        None => None,
    }
}

/// Reads digits that stand for at most `max`.
fn parse_digits(d: &[char], max: u64) -> (r: Option<u64>)
    ensures
        match r {
            Some(n) => up_to(digits_of(d@), max as nat) == Some(n as nat),
            None => up_to(digits_of(d@), max as nat) is None,
        },
{
    let len: usize = d.len();
    if len == 0 {
        return None;
    }
    let mut n: u64 = 0;
    let mut i: usize = 0;
    proof {
        assert(d@.take(0) =~= Seq::<char>::empty());
    }
    while i < len
        invariant
            len == d@.len(),
            0 <= i <= len,
            0 < len,
            n <= max,
            n == number_of(d@.take(i as int)),
            forall|j: int| 0 <= j < i ==> is_digit(#[trigger] d@[j]),
        decreases len - i,
    {
        let c: char = d[i];
        proof {
            assert(d@.take(i + 1).drop_last() =~= d@.take(i as int));
        }
        if !('0' <= c && c <= '9') {
            return None;
        }
        let v: u64 = (c as u32 - 48) as u64;
        if v > max || n > max / 10 || n * 10 > max - v {
            proof {
                lemma_number_grows(d@, i + 1);
                assert(number_of(d@.take(i + 1)) == n * 10 + v);
                assert(number_of(d@) > max);
            }
            return None;
        }
        n = n * 10 + v;
        i = i + 1;
    }
    proof {
        assert(d@.take(len as int) =~= d@);
    }
    Some(n)
}

/// Reads an unsigned decimal of at most `max`.
pub fn parse_unsigned(s: &[char], max: u64) -> (r: Option<u64>)
    ensures
        match r {
            Some(n) => unsigned_up_to(s@, max as nat) == Some(n as nat),
            None => unsigned_up_to(s@, max as nat) is None,
        },
{
    if s.len() > 0 && s[0] == '+' {
        proof {
            assert(s@.subrange(1, s@.len() as int) =~= s@.skip(1));
        }
        parse_digits(slice_subrange(s, 1, s.len()), max)
    } else {
        parse_digits(s, max)
    }
}

/// Reads a signed decimal of 64 bits.
pub fn parse_i64(s: &[char]) -> (r: Option<i64>)
    ensures
        match r {
            Some(n) => i64_of(s@) == Some(n as int),
            None => i64_of(s@) is None,
        },
{
    if s.len() > 0 && s[0] == '-' {
        proof {
            assert(s@.subrange(1, s@.len() as int) =~= s@.skip(1));
        }
        match parse_digits(slice_subrange(s, 1, s.len()), 0x8000_0000_0000_0000) {
            Some(n) => {
                let wide: i128 = n as i128;
                Some((-wide) as i64)
            },
            None => None,
        }
    } else {
        match parse_unsigned(s, i64::MAX as u64) {
            Some(n) => Some(n as i64),
            None => None,
        }
    }
}

/// Whether `p` stands in `s` at place `i`.
pub open spec fn stands_at(s: Seq<char>, i: int, p: Seq<char>) -> bool {
    0 <= i && i + p.len() <= s.len() && s.subrange(i, i + p.len()) == p
}

/// Whether `s` starts with `p`.
pub open spec fn starts(s: Seq<char>, p: Seq<char>) -> bool {
    stands_at(s, 0, p)
}

/// Whether `s` ends with `p`.
pub open spec fn ends(s: Seq<char>, p: Seq<char>) -> bool {
    stands_at(s, s.len() - p.len(), p)
}

/// Whether `p` occurs in `s`.
pub open spec fn occurs(s: Seq<char>, p: Seq<char>) -> bool {
    exists|i: int| stands_at(s, i, p)
}

/// The first place at which `p` stands in `s`.
pub open spec fn find_of(s: Seq<char>, p: Seq<char>) -> Option<int>
    decreases s.len(),
{
    if starts(s, p) {
        Some(0)
    } else if s.len() == 0 {
        None
    } else {
        match find_of(s.skip(1), p) {
            Some(i) => Some(i + 1),
            None => None,
        }
    }
}

pub proof fn lemma_find(s: Seq<char>, p: Seq<char>)
    ensures
        match find_of(s, p) {
            Some(i) => stands_at(s, i, p) && forall|j: int| 0 <= j < i ==> !stands_at(s, j, p),
            None => forall|j: int| !stands_at(s, j, p),
        },
    decreases s.len(),
{
    if starts(s, p) {
    } else if s.len() == 0 {
    } else {
        let t = s.skip(1);
        lemma_find(t, p);
        assert forall|j: int| 1 <= j implies #[trigger] stands_at(s, j, p) == stands_at(
            t,
            j - 1,
            p,
        ) by {
            if j + p.len() <= s.len() {
                assert(s.subrange(j, j + p.len()) =~= t.subrange(j - 1, j - 1 + p.len()));
            }
        }
        match find_of(t, p) {
            Some(i) => {
                assert(stands_at(s, i + 1, p));
                assert forall|j: int| 0 <= j < i + 1 implies !stands_at(s, j, p) by {
                    if j > 0 {
                        assert(!stands_at(t, j - 1, p));
                    }
                }
            },
            None => {
                assert forall|j: int| !stands_at(s, j, p) by {
                    if j > 0 {
                        assert(!stands_at(t, j - 1, p));
                    }
                }
            },
        }
    }
}

/// The first place of `p` in `s`, given as the place where it stands and
/// stands nowhere earlier.
pub proof fn lemma_find_is(s: Seq<char>, p: Seq<char>, i: int)
    requires
        stands_at(s, i, p),
        forall|j: int| 0 <= j < i ==> !stands_at(s, j, p),
    ensures
        find_of(s, p) == Some(i),
{
    lemma_find(s, p);
    match find_of(s, p) {
        Some(k) => {
            if k < i {
                assert(!stands_at(s, k, p));
            }
            if i < k {
                assert(!stands_at(s, i, p));
            }
        },
        None => {
            assert(!stands_at(s, i, p));
        },
    }
}

/// Whether `p` stands in `s` at place `i`.
pub fn matches_at(s: &[char], i: usize, p: &[char]) -> (r: bool)
    requires
        i <= s@.len(),
    ensures
        r == stands_at(s@, i as int, p@),
{
    if s.len() - i < p.len() {
        return false;
    }
    same(slice_subrange(s, i, i + p.len()), p)
}

pub fn starts_with(s: &[char], p: &str) -> (r: bool)
    ensures
        r == starts(s@, p@),
{
    let q = chars_of(p);
    matches_at(s, 0, q.as_slice())
}

pub fn ends_with(s: &[char], p: &str) -> (r: bool)
    ensures
        r == ends(s@, p@),
{
    let q = chars_of(p);
    if s.len() < q.len() {
        return false;
    }
    matches_at(s, s.len() - q.len(), q.as_slice())
}

/// The first place at or after `from` where `p` stands in `s`.
pub fn find_text(s: &[char], from: usize, p: &[char]) -> (r: Option<usize>)
    requires
        from <= s@.len(),
    ensures
        match r {
            Some(i) => from <= i && find_of(s@.skip(from as int), p@) == Some(i - from) && stands_at(
                s@,
                i as int,
                p@,
            ),
            None => find_of(s@.skip(from as int), p@) is None,
        },
{
    let n: usize = s.len();
    let mut i: usize = from;
    loop
        invariant
            n == s@.len(),
            from <= i <= n,
            find_of(s@.skip(from as int), p@) == (match find_of(s@.skip(i as int), p@) {
                Some(k) => Some(k + i - from),
                None => None::<int>,
            }),
        decreases n - i,
    {
        let ghost rest = s@.skip(i as int);
        proof {
            if i + p@.len() <= n {
                assert(rest.subrange(0, p@.len() as int) =~= s@.subrange(i as int, i + p@.len()));
            }
        }
        if matches_at(s, i, p) {
            return Some(i);
        }
        if i == n {
            return None;
        }
        proof {
            assert(rest.skip(1) =~= s@.skip(i + 1));
        }
        i = i + 1;
    }
}

/// Whether `p` occurs in `s`.
pub fn contains(s: &[char], p: &[char]) -> (r: bool)
    ensures
        r == occurs(s@, p@),
{
    proof {
        lemma_find(s@, p@);
        assert(s@.skip(0) =~= s@);
    }
    match find_text(s, 0, p) {
        Some(i) => {
            proof {
                assert(stands_at(s@, i as int, p@));
            }
            true
        },
        None => false,
    }
}

/// What follows `p` in a text that starts with `p`.
pub open spec fn without_prefix(s: Seq<char>, p: Seq<char>) -> Option<Seq<char>> {
    if starts(s, p) {
        Some(s.skip(p.len() as int))
    } else {
        None
    }
}

/// What precedes `p` in a text that ends with `p`.
pub open spec fn without_suffix(s: Seq<char>, p: Seq<char>) -> Option<Seq<char>> {
    if ends(s, p) {
        Some(s.take(s.len() - p.len()))
    } else {
        None
    }
}

pub fn strip_prefix<'a>(s: &'a [char], p: &str) -> (r: Option<&'a [char]>)
    ensures
        match r {
            Some(t) => without_prefix(s@, p@) == Some(t@),
            None => without_prefix(s@, p@) is None,
        },
{
    let q = chars_of(p);
    if matches_at(s, 0, q.as_slice()) {
        let t = slice_subrange(s, q.len(), s.len());
        proof {
            assert(t@ =~= s@.skip(p@.len() as int));
        }
        Some(t)
    } else {
        None
    }
}

pub fn strip_suffix<'a>(s: &'a [char], p: &str) -> (r: Option<&'a [char]>)
    ensures
        match r {
            Some(t) => without_suffix(s@, p@) == Some(t@),
            None => without_suffix(s@, p@) is None,
        },
{
    let q = chars_of(p);
    if s.len() >= q.len() && matches_at(s, s.len() - q.len(), q.as_slice()) {
        let t = slice_subrange(s, 0, s.len() - q.len());
        proof {
            assert(t@ =~= s@.take(s@.len() - p@.len()));
        }
        Some(t)
    } else {
        None
    }
}

/// `s` without the copies of `p` at its start.
pub open spec fn without_prefixes(s: Seq<char>, p: Seq<char>) -> Seq<char>
    decreases s.len(),
{
    if p.len() > 0 && starts(s, p) {
        without_prefixes(s.skip(p.len() as int), p)
    } else {
        s
    }
}

/// `s` without the copies of `p` at its end.
pub open spec fn without_suffixes(s: Seq<char>, p: Seq<char>) -> Seq<char>
    decreases s.len(),
{
    if p.len() > 0 && ends(s, p) {
        without_suffixes(s.take(s.len() - p.len()), p)
    } else {
        s
    }
}

/// Removes the copies of `p` at the start of `s`.
pub fn trim_start_matches<'a>(s: &'a [char], p: &[char]) -> (r: &'a [char])
    requires
        p@.len() > 0,
    ensures
        r@ == without_prefixes(s@, p@),
{
    let n: usize = s.len();
    let mut i: usize = 0;
    proof {
        assert(s@.skip(0) =~= s@);
    }
    while matches_at(s, i, p)
        invariant
            n == s@.len(),
            i <= n,
            p@.len() > 0,
            without_prefixes(s@.skip(i as int), p@) == without_prefixes(s@, p@),
        decreases n - i,
    {
        proof {
            let rest = s@.skip(i as int);
            assert(rest.subrange(0, p@.len() as int) =~= s@.subrange(i as int, i + p@.len()));
            assert(rest.skip(p@.len() as int) =~= s@.skip(i + p@.len()));
        }
        i = i + p.len();
    }
    proof {
        let rest = s@.skip(i as int);
        if i + p@.len() <= n {
            assert(rest.subrange(0, p@.len() as int) =~= s@.subrange(i as int, i + p@.len()));
        }
        assert(s@.subrange(i as int, n as int) =~= rest);
    }
    slice_subrange(s, i, n)
}

/// Removes the copies of `p` at the end of `s`.
pub fn trim_end_matches<'a>(s: &'a [char], p: &[char]) -> (r: &'a [char])
    requires
        p@.len() > 0,
    ensures
        r@ == without_suffixes(s@, p@),
{
    let mut n: usize = s.len();
    proof {
        assert(s@.take(n as int) =~= s@);
    }
    while n >= p.len() && matches_at(s, n - p.len(), p)
        invariant
            n <= s@.len(),
            p@.len() > 0,
            without_suffixes(s@.take(n as int), p@) == without_suffixes(s@, p@),
        decreases n,
    {
        proof {
            let rest = s@.take(n as int);
            assert(rest.subrange(n - p@.len(), n as int) =~= s@.subrange(n - p@.len(), n as int));
            assert(rest.take(n - p@.len()) =~= s@.take(n - p@.len()));
        }
        n = n - p.len();
    }
    proof {
        let rest = s@.take(n as int);
        if n >= p@.len() {
            assert(rest.subrange(n - p@.len(), n as int) =~= s@.subrange(n - p@.len(), n as int));
        }
        assert(s@.subrange(0, n as int) =~= rest);
    }
    slice_subrange(s, 0, n)
}

/// `s` with the copies of `p` taken out, from left to right.
pub open spec fn without_copies(s: Seq<char>, p: Seq<char>) -> Seq<char>
    decreases s.len(),
{
    if s.len() == 0 || p.len() == 0 {
        s
    } else if starts(s, p) {
        without_copies(s.skip(p.len() as int), p)
    } else {
        seq![s[0]] + without_copies(s.skip(1), p)
    }
}

/// Takes the copies of `p` out of `s`.
pub fn remove_copies(s: &[char], p: &[char]) -> (r: Vec<char>)
    requires
        p@.len() > 0,
    ensures
        r@ == without_copies(s@, p@),
{
    let n: usize = s.len();
    let mut r: Vec<char> = Vec::new();
    let mut i: usize = 0;
    proof {
        assert(s@.skip(0) =~= s@);
        assert(r@ + without_copies(s@.skip(0), p@) =~= without_copies(s@, p@));
    }
    while i < n
        invariant
            n == s@.len(),
            i <= n,
            p@.len() > 0,
            r@ + without_copies(s@.skip(i as int), p@) == without_copies(s@, p@),
        decreases n - i,
    {
        let ghost rest = s@.skip(i as int);
        proof {
            if i + p@.len() <= n {
                assert(rest.subrange(0, p@.len() as int) =~= s@.subrange(i as int, i + p@.len()));
            }
        }
        if matches_at(s, i, p) {
            proof {
                assert(rest.skip(p@.len() as int) =~= s@.skip(i + p@.len()));
            }
            i = i + p.len();
        } else {
            let ghost before = r@;
            r.push(s[i]);
            proof {
                assert(rest.skip(1) =~= s@.skip(i + 1));
                assert(r@ + without_copies(s@.skip(i + 1), p@) =~= before + without_copies(
                    rest,
                    p@,
                ));
            }
            i = i + 1;
        }
    }
    proof {
        assert(s@.skip(i as int) =~= Seq::<char>::empty());
        assert(r@ + Seq::<char>::empty() =~= r@);
    }
    r
}

/// The length of the longest start of `s` without white space.
pub open spec fn word_len(s: Seq<char>) -> int
    decreases s.len(),
{
    if s.len() == 0 || is_space(s[0]) {
        0
    } else {
        1 + word_len(s.skip(1))
    }
}

/// The words of `s`: its longest parts without white space.
pub open spec fn words_of(s: Seq<char>) -> Seq<Seq<char>>
    decreases s.len(),
{
    if s.len() == 0 {
        Seq::empty()
    } else if is_space(s[0]) {
        words_of(s.skip(1))
    } else {
        let k = word_len(s);
        if 0 < k <= s.len() {
            seq![s.take(k)] + words_of(s.skip(k))
        } else {
            Seq::empty()
        }
    }
}

/// The words of `s`.
pub fn words(s: &[char]) -> (r: Vec<Vec<char>>)
    ensures
        pieces(r@) == words_of(s@),
{
    let n: usize = s.len();
    let mut r: Vec<Vec<char>> = Vec::new();
    let mut i: usize = 0;
    proof {
        assert(s@.skip(0) =~= s@);
        assert(pieces(r@) + words_of(s@.skip(0)) =~= words_of(s@));
    }
    while i < n
        invariant
            n == s@.len(),
            i <= n,
            pieces(r@) + words_of(s@.skip(i as int)) == words_of(s@),
        decreases n - i,
    {
        let ghost rest = s@.skip(i as int);
        if space(s[i]) {
            proof {
                assert(rest.skip(1) =~= s@.skip(i + 1));
            }
            i = i + 1;
        } else {
            let mut j: usize = i;
            while j < n && !space(s[j])
                invariant
                    n == s@.len(),
                    i <= j <= n,
                    rest == s@.skip(i as int),
                    word_len(rest) == j - i + word_len(s@.skip(j as int)),
                decreases n - j,
            {
                proof {
                    assert(s@.skip(j as int).skip(1) =~= s@.skip(j + 1));
                }
                j = j + 1;
            }
            let ghost before = r@;
            let piece = copy_of(slice_subrange(s, i, j));
            proof {
                assert(word_len(s@.skip(j as int)) == 0);
                assert(!is_space(rest[0]));
                assert(word_len(rest) == 1 + word_len(rest.skip(1)));
                lemma_word_len(rest.skip(1));
                assert(piece@ =~= rest.take(j - i));
                assert(rest.skip(j - i) =~= s@.skip(j as int));
            }
            r.push(piece);
            proof {
                lemma_pieces_push(before, piece);
                assert(pieces(r@) + words_of(s@.skip(j as int)) =~= pieces(before) + words_of(
                    rest,
                ));
            }
            i = j;
        }
    }
    proof {
        assert(s@.skip(i as int) =~= Seq::<char>::empty());
        assert(pieces(r@) + Seq::<Seq<char>>::empty() =~= pieces(r@));
    }
    r
}

proof fn lemma_word_len(s: Seq<char>)
    ensures
        0 <= word_len(s) <= s.len(),
    decreases s.len(),
{
    if s.len() > 0 {
        lemma_word_len(s.skip(1));
    }
}

/// The parts with `sep` between each two of them.
pub open spec fn join_of(parts: Seq<Seq<char>>, sep: Seq<char>) -> Seq<char>
    decreases parts.len(),
{
    if parts.len() == 0 {
        Seq::empty()
    } else if parts.len() == 1 {
        parts[0]
    } else {
        join_of(parts.drop_last(), sep) + sep + parts.last()
    }
}

/// Joins strings with `sep` between each two of them.
pub fn join(parts: &Vec<String>, sep: &str) -> (r: String)
    ensures
        r@ == join_of(texts(parts@), sep@),
{
    let n: usize = parts.len();
    let mut r = String::new();
    for i in 0..n
        invariant
            n == parts@.len(),
            r@ == join_of(texts(parts@).take(i as int), sep@),
    {
        proof {
            let t = texts(parts@);
            assert(t.take(i + 1).drop_last() =~= t.take(i as int));
            assert(t.take(i + 1).last() == parts@[i as int]@);
            if i == 0 {
                assert(t.take(1)[0] == parts@[0]@);
                assert(r@ + parts@[0]@ =~= parts@[0]@);
            }
        }
        if i > 0 {
            r.append(sep);
        }
        r.append(parts[i].as_str());
    }
    proof {
        assert(texts(parts@).take(n as int) =~= texts(parts@));
    }
    r
}

/// The strings of a sequence of character vectors.
pub fn strings_of(v: &Vec<Vec<char>>) -> (r: Vec<String>)
    ensures
        texts(r@) == pieces(v@),
{
    let n: usize = v.len();
    let mut r: Vec<String> = Vec::new();
    for i in 0..n
        invariant
            n == v@.len(),
            r@.len() == i,
            forall|k: int| 0 <= k < i ==> r@[k]@ == v@[k]@,
    {
        r.push(string_of(v[i].as_slice()));
    }
    proof {
        assert(texts(r@) =~= pieces(v@));
    }
    r
}

/// Copies of the strings of a sequence.
pub fn copies_of(v: &Vec<String>) -> (r: Vec<String>)
    ensures
        texts(r@) == texts(v@),
{
    let n: usize = v.len();
    let mut r: Vec<String> = Vec::new();
    for i in 0..n
        invariant
            n == v@.len(),
            r@.len() == i,
            forall|k: int| 0 <= k < i ==> r@[k]@ == v@[k]@,
    {
        r.push(v[i].clone());
    }
    proof {
        assert(texts(r@) =~= texts(v@));
    }
    r
}

/// The number of bytes that a character takes in UTF-8.
pub open spec fn width_of(c: char) -> int {
    let u = c as u32;
    if u < 0x80 {
        1
    } else if u < 0x800 {
        2
    } else if u < 0x1_0000 {
        3
    } else {
        4
    }
}

/// The characters of `s` that take up its first `n` bytes in UTF-8, where a
/// character ends there.
pub open spec fn first_bytes(s: Seq<char>, n: int) -> Option<Seq<char>>
    decreases s.len(),
{
    if n == 0 {
        Some(Seq::empty())
    } else if s.len() == 0 || width_of(s[0]) > n {
        None
    } else {
        match first_bytes(s.skip(1), n - width_of(s[0])) {
            Some(t) => Some(seq![s[0]] + t),
            None => None,
        }
    }
}

/// The first `n` bytes of `s` as a text, where a character ends there.
pub fn byte_prefix(s: &[char], n: usize) -> (r: Option<String>)
    ensures
        match r {
            Some(t) => first_bytes(s@, n as int) == Some(t@),
            None => first_bytes(s@, n as int) is None,
        },
{
    let len: usize = s.len();
    let mut left: usize = n;
    let mut i: usize = 0;
    let mut r = String::new();
    proof {
        assert(s@.skip(0) =~= s@);
        match first_bytes(s@, n as int) {
            Some(t) => {
                assert(r@ + t =~= t);
            },
            None => {},
        }
    }
    while left > 0
        invariant
            len == s@.len(),
            i <= len,
            first_bytes(s@, n as int) == (match first_bytes(s@.skip(i as int), left as int) {
                Some(t) => Some(r@ + t),
                None => None::<Seq<char>>,
            }),
        decreases left,
    {
        if i == len {
            return None;
        }
        let c: char = s[i];
        let u: u32 = c as u32;
        let w: usize = if u < 0x80 {
            1
        } else if u < 0x800 {
            2
        } else if u < 0x1_0000 {
            3
        } else {
            4
        };
        if w > left {
            return None;
        }
        let ghost before = r@;
        let ghost rest = s@.skip(i as int);
        r.push(c);
        proof {
            assert(rest.skip(1) =~= s@.skip(i + 1));
            match first_bytes(s@.skip(i + 1), left - w) {
                Some(t) => {
                    assert(r@ + t =~= before + (seq![c] + t));
                },
                None => {},
            }
        }
        left = left - w;
        i = i + 1;
    }
    proof {
        assert(r@ + Seq::<char>::empty() =~= r@);
    }
    Some(r)
}

/// Joined parts start with the first part.
pub proof fn lemma_join_front(parts: Seq<Seq<char>>, sep: Seq<char>)
    requires
        parts.len() >= 2,
    ensures
        join_of(parts, sep) == parts[0] + sep + join_of(parts.skip(1), sep),
    decreases parts.len(),
{
    let rest = parts.skip(1);
    if parts.len() == 2 {
        assert(parts.drop_last() =~= seq![parts[0]]);
        assert(rest =~= seq![parts[1]]);
        assert(join_of(parts.drop_last(), sep) == parts[0]);
        assert(join_of(rest, sep) == parts[1]);
    } else {
        lemma_join_front(parts.drop_last(), sep);
        assert(parts.drop_last().skip(1) =~= rest.drop_last());
        assert(join_of(parts, sep) =~= parts[0] + sep + (join_of(rest.drop_last(), sep) + sep
            + rest.last()));
    }
}

/// Splitting at the first separator takes off the part before it.
pub proof fn lemma_split_front(a: Seq<char>, c: char, b: Seq<char>)
    requires
        !a.contains(c),
    ensures
        split_of(a + seq![c] + b, c) == seq![a] + split_of(b, c),
{
    lemma_first_at_after(a, c, b);
}

/// The first line of a text and the lines of the rest.
pub proof fn lemma_lines_front(a: Seq<char>, b: Seq<char>)
    requires
        !a.contains('\n'),
    ensures
        lines_of(a + seq!['\n'] + b) == seq![chomp(a)] + lines_of(b),
{
    lemma_first_at_after(a, '\n', b);
}

/// A text without a line feed is one line, unless it is empty.
pub proof fn lemma_lines_single(a: Seq<char>)
    requires
        !a.contains('\n'),
    ensures
        lines_of(a) == (if a.len() == 0 {
            Seq::<Seq<char>>::empty()
        } else {
            seq![a]
        }),
{
    lemma_first_at(a, '\n');
}

/// The lines of two texts, the first of which ends with a line feed, are the
/// lines of the one and the lines of the other.
pub proof fn lemma_lines_concat(a: Seq<char>, b: Seq<char>)
    requires
        a.len() == 0 || a.last() == '\n',
    ensures
        lines_of(a + b) == lines_of(a) + lines_of(b),
    decreases a.len(),
{
    if a.len() == 0 {
        assert(a + b =~= b);
        assert(lines_of(a) + lines_of(b) =~= lines_of(b));
    } else {
        lemma_first_at(a, '\n');
        let i = first_at(a, '\n');
        assert(a.contains('\n')) by {
            assert(a[a.len() - 1] == '\n');
        }
        let line = a.take(i);
        let rest = a.skip(i + 1);
        assert(!line.contains('\n'));
        assert(a =~= line + seq!['\n'] + rest);
        assert(a + b =~= line + seq!['\n'] + (rest + b));
        lemma_lines_front(line, rest);
        lemma_lines_front(line, rest + b);
        if rest.len() > 0 {
            assert(rest.last() == a.last());
        }
        lemma_lines_concat(rest, b);
        assert(lines_of(a + b) =~= lines_of(a) + lines_of(b));
    }
}

/// White space at the start does not change what trimming leaves.
pub proof fn lemma_trim_front(c: char, s: Seq<char>)
    requires
        is_space(c),
    ensures
        trim_of(seq![c] + s) == trim_of(s),
{
    assert((seq![c] + s).skip(1) =~= s);
}

/// White space at the end of a text that does not start with white space does
/// not change what trimming leaves.
pub proof fn lemma_trim_back(s: Seq<char>, c: char)
    requires
        is_space(c),
        s.len() > 0 ==> !is_space(s[0]),
    ensures
        trim_of(s.push(c)) == trim_of(s),
        trim_end_of(s.push(c)) == trim_end_of(s),
{
    let t = s.push(c);
    assert(t.drop_last() =~= s);
    if s.len() == 0 {
        assert(t.skip(1) =~= s);
        assert(trim_start_of(t) == trim_start_of(t.skip(1)));
        assert(trim_start_of(s) =~= s);
    } else {
        assert(t[0] == s[0]);
    }
}

/// Whether all characters of a text have a property.
pub open spec fn all_chars(s: Seq<char>, p: spec_fn(char) -> bool) -> bool {
    forall|i: int| 0 <= i < s.len() ==> p(#[trigger] s[i])
}

/// Whether a character is no white space.
pub open spec fn not_space() -> spec_fn(char) -> bool {
    |c: char| !is_space(c)
}

proof fn lemma_word_chars(s: Seq<char>)
    ensures
        0 <= word_len(s) <= s.len(),
        all_chars(s.take(word_len(s)), not_space()),
        all_chars(s, not_space()) ==> word_len(s) == s.len(),
    decreases s.len(),
{
    if s.len() > 0 && !is_space(s[0]) {
        let rest = s.skip(1);
        lemma_word_chars(rest);
        let k = word_len(rest);
        assert forall|i: int| 0 <= i < k + 1 implies not_space()(#[trigger] s.take(k + 1)[i]) by {
            if i > 0 {
                assert(rest.take(k)[i - 1] == s[i]);
            }
        }
        if all_chars(s, not_space()) {
            assert forall|i: int| 0 <= i < rest.len() implies not_space()(#[trigger] rest[i]) by {
                assert(s[i + 1] == rest[i]);
            }
        }
    } else if s.len() > 0 {
        assert(!not_space()(s[0]));
    }
}

/// The words of a text are not empty, hold no white space, and have every
/// property that all characters of the text have.
pub proof fn lemma_words_chars(s: Seq<char>, p: spec_fn(char) -> bool)
    requires
        all_chars(s, p),
    ensures
        forall|i: int|
            0 <= i < words_of(s).len() ==> (#[trigger] words_of(s)[i]).len() > 0 && all_chars(
                words_of(s)[i],
                not_space(),
            ) && all_chars(words_of(s)[i], p),
    decreases s.len(),
{
    if s.len() > 0 {
        let k = if is_space(s[0]) {
            1
        } else {
            word_len(s)
        };
        lemma_word_chars(s);
        if 0 < k <= s.len() {
            let rest = s.skip(k);
            assert forall|i: int| 0 <= i < rest.len() implies p(#[trigger] rest[i]) by {
                assert(s[i + k] == rest[i]);
            }
            lemma_words_chars(rest, p);
            if !is_space(s[0]) {
                let first = s.take(k);
                assert forall|i: int| 0 <= i < first.len() implies p(#[trigger] first[i]) by {
                    assert(s[i] == first[i]);
                }
                assert forall|i: int| 0 <= i < words_of(s).len() implies (
                #[trigger] words_of(s)[i]).len() > 0 && all_chars(words_of(s)[i], not_space())
                    && all_chars(words_of(s)[i], p) by {
                    if i > 0 {
                        assert(words_of(s)[i] == words_of(rest)[i - 1]);
                    }
                }
            } else {
                assert(words_of(s) == words_of(rest));
            }
        } else {
            assert(word_len(s) == 1 + word_len(s.skip(1)));
            lemma_word_chars(s.skip(1));
        }
    }
}

/// A text without white space is its own only word.
pub proof fn lemma_one_word(s: Seq<char>)
    requires
        s.len() > 0,
        all_chars(s, not_space()),
    ensures
        words_of(s) == seq![s],
{
    lemma_word_chars(s);
    assert(not_space()(s[0]));
    assert(s.take(s.len() as int) =~= s);
    assert(s.skip(s.len() as int) =~= Seq::<char>::empty());
    assert(words_of(s.skip(s.len() as int)) =~= Seq::empty());
    assert(words_of(s) =~= seq![s]);
}

/// Joined texts have every property that all characters of the parts and of
/// what stands between them have.
pub proof fn lemma_join_chars(parts: Seq<Seq<char>>, sep: Seq<char>, p: spec_fn(char) -> bool)
    requires
        all_chars(sep, p),
        forall|i: int| 0 <= i < parts.len() ==> all_chars(#[trigger] parts[i], p),
    ensures
        all_chars(join_of(parts, sep), p),
    decreases parts.len(),
{
    if parts.len() > 1 {
        let rest = parts.drop_last();
        assert forall|i: int| 0 <= i < rest.len() implies all_chars(#[trigger] rest[i], p) by {
            assert(parts[i] == rest[i]);
        }
        lemma_join_chars(rest, sep, p);
        let a = join_of(rest, sep);
        let z = parts[parts.len() - 1];
        let all = join_of(parts, sep);
        assert forall|i: int| 0 <= i < all.len() implies p(#[trigger] all[i]) by {
            if i < a.len() {
                assert(all[i] == a[i]);
            } else if i < a.len() + sep.len() {
                assert(all[i] == sep[i - a.len()]);
            } else {
                assert(all[i] == z[i - a.len() - sep.len()]);
            }
        }
    }
}

} // verus!
