//! Percent-decoding of query strings.

use vstd::prelude::*;
use vstd::string::*;
use vstd::utf8::*;

verus! {

/// The number that a hexadecimal digit stands for.
pub open spec fn hex_of(b: u8) -> Option<u8> {
    if 48 <= b <= 57 {
        Some((b - 48) as u8)
    } else if 65 <= b <= 70 {
        Some((b - 55) as u8)
    } else if 97 <= b <= 102 {
        Some((b - 87) as u8)
    } else {
        None
    }
}

/// The byte that two hexadecimal digits stand for.
pub open spec fn hex_pair_of(a: u8, b: u8) -> Option<u8> {
    if hex_of(a) is Some && hex_of(b) is Some {
        Some((hex_of(a)->0 * 16 + hex_of(b)->0) as u8)
    } else {
        None
    }
}

/// The bytes that a percent-encoded text stands for: `%` and two hexadecimal
/// digits stand for one byte, `+` for a space, everything else for itself.
pub open spec fn decoded_bytes(s: Seq<u8>) -> Seq<u8>
    decreases s.len(),
{
    if s.len() == 0 {
        Seq::empty()
    } else if s[0] == 37 && s.len() > 2 && hex_pair_of(s[1], s[2]) is Some {
        seq![hex_pair_of(s[1], s[2])->0] + decoded_bytes(s.skip(3))
    } else if s[0] == 43 {
        seq![32u8] + decoded_bytes(s.skip(1))
    } else {
        seq![s[0]] + decoded_bytes(s.skip(1))
    }
}

/// The text that a percent-encoded text stands for; the text itself where the
/// bytes are not UTF-8.
pub open spec fn decoded(s: Seq<char>) -> Seq<char> {
    let bytes = decoded_bytes(encode_utf8(s));
    if valid_utf8(bytes) {
        decode_utf8(bytes)
    } else {
        s
    }
}

/// `String::from_utf8` of std: a text where the bytes are UTF-8, and nothing
/// otherwise.
#[verifier::external_body]
fn text_from_utf8(bytes: Vec<u8>) -> (r: Option<String>)
    ensures
        match r {
            Some(t) => valid_utf8(bytes@) && t@ == decode_utf8(bytes@),
            None => !valid_utf8(bytes@),
        },
{
    String::from_utf8(bytes).ok()
}

fn hex(b: u8) -> (r: Option<u8>)
    ensures
        r == hex_of(b),
{
    if 48 <= b && b <= 57 {
        Some(b - 48)
    } else if 65 <= b && b <= 70 {
        Some(b - 55)
    } else if 97 <= b && b <= 102 {
        Some(b - 87)
    } else {
        None
    }
}

fn hex_pair(a: u8, b: u8) -> (r: Option<u8>)
    ensures
        r == hex_pair_of(a, b),
{
    match (hex(a), hex(b)) {
        (Some(high), Some(low)) => Some(high * 16 + low),
        _ => None,
    }
}

/// Percent-decodes a text of a query string.
pub fn percent_decode(s: &str) -> (r: String)
    ensures
        r@ == decoded(s@),
{
    let bytes: &[u8] = s.as_bytes();
    let n: usize = bytes.len();
    let mut out: Vec<u8> = Vec::new();
    let mut at: usize = 0;
    proof {
        assert(bytes@.skip(0) =~= bytes@);
        assert(out@ + decoded_bytes(bytes@.skip(0)) =~= decoded_bytes(bytes@));
    }
    while at < n
        invariant
            n == bytes@.len(),
            at <= n,
            out@ + decoded_bytes(bytes@.skip(at as int)) == decoded_bytes(bytes@),
        decreases n - at,
    {
        let b: u8 = bytes[at];
        let pair: Option<u8> = if b == 37 && n - at > 2 {
            hex_pair(bytes[at + 1], bytes[at + 2])
        } else {
            None
        };
        let ghost rest = bytes@.skip(at as int);
        let ghost before = out@;
        match pair {
            Some(byte) => {
                out.push(byte);
                proof {
                    assert(rest.skip(3) =~= bytes@.skip(at + 3));
                    assert(out@ + decoded_bytes(rest.skip(3)) =~= before + decoded_bytes(rest));
                }
                at = at + 3;
            },
            None => {
                if b == 43 {
                    out.push(32);
                } else {
                    out.push(b);
                }
                proof {
                    assert(rest.skip(1) =~= bytes@.skip(at + 1));
                    assert(out@ + decoded_bytes(rest.skip(1)) =~= before + decoded_bytes(rest));
                }
                at = at + 1;
            },
        }
    }
    proof {
        assert(bytes@.skip(at as int) =~= Seq::<u8>::empty());
        assert(out@ + Seq::<u8>::empty() =~= out@);
    }
    match text_from_utf8(out) {
        Some(t) => t,
        None => s.to_owned(),
    }
}

proof fn lemma_plain_bytes(s: Seq<u8>)
    requires
        !s.contains(37u8),
        !s.contains(43u8),
    ensures
        decoded_bytes(s) == s,
    decreases s.len(),
{
    if s.len() > 0 {
        let rest = s.skip(1);
        assert(s[0] != 37 && s[0] != 43) by {
            assert(s.contains(s[0]));
        }
        assert forall|b: u8| rest.contains(b) implies s.contains(b) by {
            let i = rest.index_of(b);
            assert(s[i + 1] == b);
        }
        lemma_plain_bytes(rest);
        assert(seq![s[0]] + rest =~= s);
    } else {
        assert(decoded_bytes(s) =~= s);
    }
}

proof fn lemma_plain_scalar(v: u32)
    by (bit_vector)
    requires
        v < 0x11_0000,
        v != 37,
        v != 43,
    ensures
        has_width_1_encoding(v) ==> leading_byte_width_1(v) != 37 && leading_byte_width_1(v) != 43,
        leading_byte_width_2(v) >= 128,
        leading_byte_width_3(v) >= 128,
        leading_byte_width_4(v) >= 128,
        last_continuation_byte(v) >= 128,
        second_last_continuation_byte(v) >= 128,
        third_last_continuation_byte(v) >= 128,
{
}

proof fn lemma_plain_chars(s: Seq<char>)
    requires
        !s.contains('%'),
        !s.contains('+'),
    ensures
        !encode_utf8(s).contains(37u8),
        !encode_utf8(s).contains(43u8),
    decreases s.len(),
{
    if s.len() > 0 {
        let rest = s.drop_first();
        let first = encode_scalar(s[0] as u32);
        assert(s.contains(s[0]));
        assert forall|c: char| rest.contains(c) implies s.contains(c) by {
            let i = rest.index_of(c);
            assert(s[i + 1] == c);
        }
        lemma_plain_chars(rest);
        char_is_scalar(s[0]);
        char_u32_cast(s[0], s[0] as u32);
        assert(s[0] as u32 != 37 && s[0] as u32 != 43) by {
            assert(37u32 as char == '%' && 43u32 as char == '+');
        }
        lemma_plain_scalar(s[0] as u32);
        assert forall|b: u8| encode_utf8(s).contains(b) implies first.contains(b) || encode_utf8(
            rest,
        ).contains(b) by {
            let i = encode_utf8(s).index_of(b);
            if i < first.len() {
                assert(first[i] == b);
            } else {
                assert(encode_utf8(rest)[i - first.len()] == b);
            }
        }
        assert(!first.contains(37u8) && !first.contains(43u8));
    }
}

/// A text that holds neither `%` nor `+` stands for itself.
pub proof fn plain_text_stays(s: Seq<char>)
    requires
        !s.contains('%'),
        !s.contains('+'),
    ensures
        decoded(s) == s,
{
    broadcast use {encode_utf8_valid_utf8, encode_utf8_decode_utf8};

    lemma_plain_chars(s);
    lemma_plain_bytes(encode_utf8(s));
}

/// The hexadecimal digit for a number below 16.
pub open spec fn digit_for(n: int) -> u8 {
    if n < 10 {
        (48 + n) as u8
    } else {
        (55 + n) as u8
    }
}

/// Bytes with each of them escaped: `%` and its two hexadecimal digits.
pub open spec fn escaped_bytes(s: Seq<u8>) -> Seq<u8>
    decreases s.len(),
{
    if s.len() == 0 {
        Seq::empty()
    } else {
        seq![37u8, digit_for(s[0] as int / 16), digit_for(s[0] as int % 16)] + escaped_bytes(
            s.skip(1),
        )
    }
}

/// A text with every byte of it escaped.
pub open spec fn escaped(s: Seq<char>) -> Seq<char> {
    escaped_bytes(encode_utf8(s)).map_values(|b: u8| b as char)
}

proof fn lemma_escaped_bytes(s: Seq<u8>)
    ensures
        decoded_bytes(escaped_bytes(s)) == s,
        forall|i: int|
            0 <= i < escaped_bytes(s).len() ==> #[trigger] escaped_bytes(s)[i] < 128,
    decreases s.len(),
{
    if s.len() > 0 {
        let rest = s.skip(1);
        let e = escaped_bytes(s);
        lemma_escaped_bytes(rest);
        assert(e.skip(3) =~= escaped_bytes(rest));
        assert forall|i: int| 0 <= i < e.len() implies #[trigger] e[i] < 128 by {
            if i >= 3 {
                assert(e[i] == escaped_bytes(rest)[i - 3]);
            }
        }
        assert(hex_pair_of(e[1], e[2]) == Some(s[0]));
        assert(seq![s[0]] + rest =~= s);
    } else {
        assert(decoded_bytes(escaped_bytes(s)) =~= s);
    }
}

/// A text that was escaped in full is what its decoding gives back.
pub proof fn escaped_text_is_read_back(s: Seq<char>)
    ensures
        decoded(escaped(s)) == s,
{
    broadcast use {encode_utf8_valid_utf8, encode_utf8_decode_utf8};

    let bytes = escaped_bytes(encode_utf8(s));
    let e = escaped(s);
    lemma_escaped_bytes(encode_utf8(s));
    assert forall|i: int| 0 <= i < e.len() implies '\0' <= #[trigger] e[i] <= '\u{7f}' by {
        assert(bytes[i] < 128);
    }
    assert(is_ascii_chars(e));
    is_ascii_chars_encode_utf8(e);
    assert forall|i: int| 0 <= i < e.len() implies encode_utf8(e)[i] == #[trigger] bytes[i] by {
        assert(e[i] as u8 == encode_utf8(e)[i]);
        assert(bytes[i] < 128);
    }
    assert(encode_utf8(e) =~= bytes);
}

proof fn lemma_decoded_len(s: Seq<u8>)
    ensures
        decoded_bytes(s).len() <= s.len(),
    decreases s.len(),
{
    if s.len() > 0 {
        if s[0] == 37 && s.len() > 2 && hex_pair_of(s[1], s[2]) is Some {
            lemma_decoded_len(s.skip(3));
        } else {
            lemma_decoded_len(s.skip(1));
        }
    }
}

/// Decoding never makes a text longer, counted in bytes.
pub proof fn decoding_does_not_grow(s: Seq<char>)
    ensures
        encode_utf8(decoded(s)).len() <= encode_utf8(s).len(),
{
    broadcast use decode_utf8_encode_utf8;

    lemma_decoded_len(encode_utf8(s));
}

} // verus!
