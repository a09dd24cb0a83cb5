//! Uppercase hexadecimal encoding and decoding of byte strings.
use vstd::prelude::*;

verus! {

/// The uppercase hexadecimal digit for a nibble value `v < 16`.
pub open spec fn hex_digit(v: int) -> char {
    if v < 10 {
        ((v + 48) as u8) as char
    } else {
        ((v + 55) as u8) as char
    }
}

/// The two uppercase hexadecimal digits of one byte, high nibble first.
pub open spec fn hex_byte(b: u8) -> Seq<char> {
    seq![hex_digit(b as int / 16), hex_digit(b as int % 16)]
}

/// Hexadecimal encoding of a byte string: two uppercase digits per byte.
pub open spec fn hex_encode(bytes: Seq<u8>) -> Seq<char>
    decreases bytes.len(),
{
    if bytes.len() == 0 {
        Seq::empty()
    } else {
        hex_encode(bytes.drop_last()) + hex_byte(bytes.last())
    }
}

/// A character that `u8::from_str_radix(_, 16)` reads as a digit.
pub open spec fn is_hex_char(c: char) -> bool {
    ('0' <= c <= '9') || ('A' <= c <= 'F') || ('a' <= c <= 'f')
}

/// The value of a hexadecimal digit character.
pub open spec fn hex_value(c: char) -> int {
    if '0' <= c <= '9' {
        c as int - 48
    } else if 'A' <= c <= 'F' {
        c as int - 55
    } else {
        c as int - 87
    }
}

/// Text made of pairs of hexadecimal digits.
pub open spec fn is_hex_pairs(s: Seq<char>) -> bool {
    &&& s.len() % 2 == 0
    &&& forall|i: int| 0 <= i < s.len() ==> is_hex_char(#[trigger] s[i])
}

/// The bytes that a text of hexadecimal digit pairs spells, one byte per pair.
pub open spec fn hex_decode(s: Seq<char>) -> Seq<u8> {
    Seq::new(
        s.len() / 2,
        |i: int| (16 * hex_value(s[2 * i]) + hex_value(s[2 * i + 1])) as u8,
    )
}

/// An encoding has two characters per byte.
pub proof fn lemma_hex_encode_len(bytes: Seq<u8>)
    ensures
        hex_encode(bytes).len() == 2 * bytes.len(),
    decreases bytes.len(),
{
    if bytes.len() > 0 {
        lemma_hex_encode_len(bytes.drop_last());
    }
}

/// Encoding one more byte appends its two digits.
pub proof fn lemma_hex_encode_push(bytes: Seq<u8>, b: u8)
    ensures
        hex_encode(bytes.push(b)) == hex_encode(bytes) + hex_byte(b),
{
    assert(bytes.push(b).drop_last() =~= bytes);
}

/// Encoding a concatenation is concatenating the encodings.
pub proof fn lemma_hex_encode_concat(a: Seq<u8>, b: Seq<u8>)
    ensures
        hex_encode(a + b) == hex_encode(a) + hex_encode(b),
    decreases b.len(),
{
    if b.len() == 0 {
        assert(a + b =~= a);
        assert(hex_encode(a) + hex_encode(b) =~= hex_encode(a));
    } else {
        lemma_hex_encode_concat(a, b.drop_last());
        assert((a + b).drop_last() =~= a + b.drop_last());
        assert((a + b).last() == b.last());
        assert(hex_encode(a) + hex_encode(b) =~= hex_encode(a) + hex_encode(b.drop_last())
            + hex_byte(b.last()));
    }
}

/// The characters at positions `2i` and `2i+1` of an encoding are the digits of byte `i`.
pub proof fn lemma_hex_encode_index(bytes: Seq<u8>, i: int)
    requires
        0 <= i < bytes.len(),
    ensures
        hex_encode(bytes).len() == 2 * bytes.len(),
        hex_encode(bytes)[2 * i] == hex_digit(bytes[i] as int / 16),
        hex_encode(bytes)[2 * i + 1] == hex_digit(bytes[i] as int % 16),
    decreases bytes.len(),
{
    lemma_hex_encode_len(bytes);
    lemma_hex_encode_len(bytes.drop_last());
    if i < bytes.len() - 1 {
        lemma_hex_encode_index(bytes.drop_last(), i);
    }
}

/// A digit below 16 is a hexadecimal character, reads back as itself, and is ASCII.
pub proof fn lemma_hex_digit_roundtrip(v: int)
    requires
        0 <= v < 16,
    ensures
        is_hex_char(hex_digit(v)),
        hex_value(hex_digit(v)) == v,
        '\0' <= hex_digit(v) <= '\u{7f}',
{
}

/// Every encoding is a text of digit pairs, and decoding it gives back the bytes.
pub proof fn lemma_hex_roundtrip(bytes: Seq<u8>)
    ensures
        is_hex_pairs(hex_encode(bytes)),
        hex_decode(hex_encode(bytes)) == bytes,
{
    let s = hex_encode(bytes);
    lemma_hex_encode_len(bytes);
    assert forall|j: int| 0 <= j < s.len() implies is_hex_char(#[trigger] s[j]) by {
        let i = j / 2;
        lemma_hex_encode_index(bytes, i);
        lemma_hex_digit_roundtrip(bytes[i] as int / 16);
        lemma_hex_digit_roundtrip(bytes[i] as int % 16);
    }
    assert forall|i: int| 0 <= i < bytes.len() implies #[trigger] hex_decode(s)[i] == bytes[i] by {
        lemma_hex_encode_index(bytes, i);
        lemma_hex_digit_roundtrip(bytes[i] as int / 16);
        lemma_hex_digit_roundtrip(bytes[i] as int % 16);
    }
    assert(hex_decode(s) =~= bytes);
}

/// Exec counterpart of `hex_digit`.
pub fn nibble_digit(v: u8) -> (c: char)
    requires
        v < 16,
    ensures
        c == hex_digit(v as int),
{
    if v < 10 {
        (v + 48) as char
    } else {
        (v + 55) as char
    }
}

/// Appends the two uppercase hexadecimal digits of `b`.
pub fn push_hex_byte(out: &mut Vec<char>, b: u8)
    ensures
        final(out)@ == old(out)@ + hex_byte(b),
{
    let hi = nibble_digit(b / 16);
    let lo = nibble_digit(b % 16);
    out.push(hi);
    out.push(lo);
    assert(final(out)@ =~= old(out)@ + hex_byte(b));
}

/// Appends the hexadecimal encoding of every byte of `bytes`.
pub fn push_hex_bytes(out: &mut Vec<char>, bytes: &[u8])
    ensures
        final(out)@ == old(out)@ + hex_encode(bytes@),
{
    let ghost start = out@;
    let mut i: usize = 0;
    while i < bytes.len()
        invariant
            i <= bytes@.len(),
            out@ == start + hex_encode(bytes@.subrange(0, i as int)),
        decreases bytes@.len() - i,
    {
        push_hex_byte(out, bytes[i]);
        proof {
            let pre = bytes@.subrange(0, i as int);
            assert(bytes@.subrange(0, i + 1) =~= pre.push(bytes@[i as int]));
            lemma_hex_encode_push(pre, bytes@[i as int]);
        }
        i = i + 1;
    }
    assert(bytes@.subrange(0, i as int) =~= bytes@);
}

/// Reads one hexadecimal digit character.
fn digit_value(c: u8) -> (v: u8)
    requires
        is_hex_char(c as char),
    ensures
        v as int == hex_value(c as char),
{
    if c <= 57 {
        c - 48
    } else if c <= 70 {
        c - 55
    } else {
        c - 87
    }
}

/// Turns a text of hexadecimal digit pairs into the bytes it spells.
pub fn hex_string_to_bytes(hex: &str) -> (bytes: Vec<u8>)
    requires
        is_hex_pairs(hex@),
    ensures
        bytes@ == hex_decode(hex@),
{
    let raw = hex.as_bytes();
    proof {
        assert(vstd::string::is_ascii(hex)) by {
            assert forall|i: int| 0 <= i < hex@.len() implies '\0' <= #[trigger] hex@[i] <= '\u{7f}' by {
                assert(is_hex_char(hex@[i]));
            }
        }
        vstd::string::is_ascii_spec_bytes(hex);
    }
    let n = raw.len();
    let mut out: Vec<u8> = Vec::new();
    let mut i: usize = 0;
    while i < n / 2
        invariant
            n == raw@.len(),
            raw@.len() == hex@.len(),
            raw@ == Seq::new(hex@.len(), |k: int| hex@[k] as u8),
            is_hex_pairs(hex@),
            i <= n / 2,
            out@ == hex_decode(hex@).subrange(0, i as int),
        decreases n / 2 - i,
    {
        let hi_c = raw[2 * i];
        let lo_c = raw[2 * i + 1];
        assert(hi_c as char == hex@[2 * i as int]) by {
            assert(is_hex_char(hex@[2 * i as int]));
        }
        assert(lo_c as char == hex@[2 * i + 1]) by {
            assert(is_hex_char(hex@[2 * i + 1]));
        }
        let hi = digit_value(hi_c);
        let lo = digit_value(lo_c);
        out.push(16 * hi + lo);
        assert(out@ =~= hex_decode(hex@).subrange(0, i + 1));
        i = i + 1;
    }
    assert(out@ =~= hex_decode(hex@));
    out
}

/// Collects characters into a `String`.
///
/// Trusted: calls `String::from_iter` on the characters; claims that the
/// resulting string holds exactly those characters, in order.
#[verifier::external_body]
pub(crate) fn chars_to_string(chars: Vec<char>) -> (s: String)
    ensures
        s@ == chars@,
{
    String::from_iter(chars)
}

} // verus!
