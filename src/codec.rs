//! The encoder and the decoder, with the byte-level model they are proved against.

use crate::error::FromUrlEncodingError;
use crate::hex::{
    from_hex_digit, hex_digit, hex_value, lemma_hex_value_bound, lemma_hex_value_of_digit,
    to_hex_digit,
};
use std::string::FromUtf8Error;
use vstd::prelude::*;
use vstd::utf8::{
    decode_first_scalar, decode_utf8, decode_utf8_encode_utf8, encode_utf8, encode_utf8_decode_utf8,
    encode_utf8_valid_utf8, is_ascii_chars, pop_first_scalar, valid_utf8,
};

verus! {

/// The byte `%`, which starts an escape.
pub const PERCENT: u8 = 0x25;

/// The unreserved bytes, copied unchanged by the encoder: ASCII letters,
/// digits, and `-` (0x2D), `.` (0x2E), `_` (0x5F), `~` (0x7E).
pub open spec fn is_unreserved(b: u8) -> bool {
    ||| 0x30 <= b <= 0x39
    ||| 0x41 <= b <= 0x5A
    ||| 0x61 <= b <= 0x7A
    ||| b == 0x2D
    ||| b == 0x2E
    ||| b == 0x5F
    ||| b == 0x7E
}

/// What the encoder writes for one byte: the byte itself when it is
/// unreserved, else `%` and its two uppercase hex digits.
pub open spec fn escape(b: u8) -> Seq<u8> {
    if is_unreserved(b) {
        seq![b]
    } else {
        seq![PERCENT, hex_digit(b >> 4), hex_digit(b & 15)]
    }
}

/// The encoding of a byte sequence: each byte escaped on its own, in order.
pub open spec fn percent_encode(bytes: Seq<u8>) -> Seq<u8>
    decreases bytes.len(),
{
    if bytes.len() == 0 {
        seq![]
    } else {
        percent_encode(bytes.drop_last()) + escape(bytes.last())
    }
}

/// The byte that an escape with digit values `hi` and `lo` stands for.
pub open spec fn escaped_byte(hi: u8, lo: u8) -> u8 {
    (hi * 16 + lo) as u8
}

/// The decoding of a byte sequence, read from the front. A `%` with two hex
/// digits after it becomes one byte. A `%` without them is copied, together
/// with the bytes that were looked at after it: a non-digit right after `%`,
/// or a digit and the non-digit after that, or whatever is left at the end.
/// Every other byte is copied.
pub open spec fn percent_decode(s: Seq<u8>) -> Seq<u8>
    decreases s.len(),
{
    if s.len() == 0 {
        seq![]
    } else if s[0] != PERCENT {
        seq![s[0]] + percent_decode(s.skip(1))
    } else if s.len() == 1 {
        s
    } else if hex_value(s[1]) is None {
        s.take(2) + percent_decode(s.skip(2))
    } else if s.len() == 2 {
        s
    } else if hex_value(s[2]) is None {
        s.take(3) + percent_decode(s.skip(3))
    } else {
        seq![escaped_byte(hex_value(s[1])->0, hex_value(s[2])->0)] + percent_decode(s.skip(3))
    }
}

/// The text that `encode` returns: the ASCII characters of the escaped UTF-8 bytes.
pub open spec fn encoded(text: Seq<char>) -> Seq<char> {
    decode_utf8(percent_encode(encode_utf8(text)))
}

/// What `decode` returns: the text whose UTF-8 bytes are the unescaped
/// bytes, or `None` when those bytes are not valid UTF-8.
pub open spec fn decoded(text: Seq<char>) -> Option<Seq<char>> {
    let bytes = percent_decode(encode_utf8(text));
    if valid_utf8(bytes) {
        Some(decode_utf8(bytes))
    } else {
        None
    }
}

/// Tells whether a byte is unreserved.
pub fn is_unreserved_byte(b: u8) -> (r: bool)
    ensures
        r == is_unreserved(b),
{
    (0x30 <= b && b <= 0x39) || (0x41 <= b && b <= 0x5A) || (0x61 <= b && b <= 0x7A) || b == 0x2D
        || b == 0x2E || b == 0x5F || b == 0x7E
}

/// Appends the encoding of `data`'s UTF-8 bytes to `escaped`.
pub fn encode_into(data: &str, escaped: &mut Vec<u8>)
    ensures
        final(escaped)@ == old(escaped)@ + percent_encode(encode_utf8(data@)),
{
    let bytes = data.as_bytes();
    let mut i: usize = 0;
    while i < bytes.len()
        invariant
            i <= bytes@.len(),
            bytes@ == encode_utf8(data@),
            escaped@ == old(escaped)@ + percent_encode(bytes@.take(i as int)),
        decreases bytes@.len() - i,
    {
        let byte = bytes[i];
        if is_unreserved_byte(byte) {
            escaped.push(byte);
        } else {
            assert(byte >> 4 < 16 && byte & 15 < 16) by (bit_vector);
            escaped.push(PERCENT);
            escaped.push(to_hex_digit(byte >> 4));
            escaped.push(to_hex_digit(byte & 15));
        }
        assert(bytes@.take(i + 1).drop_last() =~= bytes@.take(i as int));
        i += 1;
    }
    assert(bytes@.take(bytes@.len() as int) =~= bytes@);
}

/// Every byte is ASCII.
pub open spec fn all_ascii(bytes: Seq<u8>) -> bool {
    forall|i: int| 0 <= i < bytes.len() ==> #[trigger] bytes[i] < 0x80
}

/// ASCII bytes are valid UTF-8, and they decode to as many ASCII characters.
pub proof fn lemma_ascii_utf8(bytes: Seq<u8>)
    requires
        all_ascii(bytes),
    ensures
        valid_utf8(bytes),
        decode_utf8(bytes).len() == bytes.len(),
        is_ascii_chars(decode_utf8(bytes)),
    decreases bytes.len(),
{
    if bytes.len() > 0 {
        let b0 = bytes[0];
        assert((b0 & 0x7F) as u32 == b0 as u32) by (bit_vector)
            requires
                b0 < 0x80,
        ;
        assert(pop_first_scalar(bytes) =~= bytes.drop_first());
        lemma_ascii_utf8(bytes.drop_first());
        let rest = decode_utf8(bytes.drop_first());
        let c = decode_first_scalar(bytes) as char;
        assert(decode_utf8(bytes) =~= seq![c] + rest);
        assert(is_ascii_chars(decode_utf8(bytes)));
    }
}

/// Escaping only ever writes ASCII bytes.
pub proof fn lemma_escape_ascii(b: u8)
    ensures
        all_ascii(escape(b)),
{
    assert(b >> 4 < 16 && b & 15 < 16) by (bit_vector);
}

/// The encoding of any byte sequence is ASCII.
pub proof fn lemma_percent_encode_ascii(bytes: Seq<u8>)
    ensures
        all_ascii(percent_encode(bytes)),
    decreases bytes.len(),
{
    if bytes.len() > 0 {
        lemma_percent_encode_ascii(bytes.drop_last());
        lemma_escape_ascii(bytes.last());
        let a = percent_encode(bytes.drop_last());
        let e = escape(bytes.last());
        assert forall|i: int| 0 <= i < (a + e).len() implies #[trigger] (a + e)[i] < 0x80 by {
            if i >= a.len() {
                assert((a + e)[i] == e[i - a.len()]);
            }
        }
    }
}

/// Relies on std's `String::from_utf8`: it returns `Ok` exactly when the
/// bytes are valid UTF-8, and the string then holds the text they encode.
#[verifier::external_body]
pub(crate) fn string_from_utf8(bytes: Vec<u8>) -> (r: Result<String, FromUtf8Error>)
    ensures
        r is Ok <==> valid_utf8(bytes@),
        r matches Ok(s) ==> s@ == decode_utf8(bytes@),
{
    String::from_utf8(bytes)
}

/// Percent-encodes `data`: each unreserved byte of its UTF-8 form is kept,
/// every other byte becomes `%` and two uppercase hex digits.
pub fn encode(data: &str) -> (r: String)
    ensures
        r@ == encoded(data@),
        encode_utf8(r@) == percent_encode(encode_utf8(data@)),
        is_ascii_chars(r@),
{
    let mut escaped: Vec<u8> = Vec::with_capacity(data.len());
    encode_into(data, &mut escaped);
    proof {
        assert(escaped@ =~= percent_encode(encode_utf8(data@)));
        lemma_percent_encode_ascii(encode_utf8(data@));
        lemma_ascii_utf8(escaped@);
        decode_utf8_encode_utf8(escaped@);
    }
    match string_from_utf8(escaped) {
        Ok(s) => s,
        Err(_) => {
            proof {
                assert(false);
            }
            String::new()
        },
    }
}

/// Decodes percent escapes in `string`. Malformed escapes are kept as they
/// stand; the result fails only when the unescaped bytes are not UTF-8.
pub fn decode(string: &str) -> (r: Result<String, FromUrlEncodingError>)
    ensures
        r matches Ok(s) ==> decoded(string@) == Some(s@),
        r is Err ==> decoded(string@) is None,
        r matches Err(e) ==> e is Utf8CharacterError,
{
    let bytes = string.as_bytes();
    let ghost all = bytes@;
    let mut out: Vec<u8> = Vec::with_capacity(bytes.len());
    let mut i: usize = 0;
    assert(all.skip(0) =~= all);
    assert(out@ + percent_decode(all.skip(0)) =~= percent_decode(all));
    while i < bytes.len()
        invariant
            i <= all.len(),
            bytes@ == all,
            out@ + percent_decode(all.skip(i as int)) == percent_decode(all),
        decreases all.len() - i,
    {
        let ghost rest = all.skip(i as int);
        let ghost before = out@;
        let b = bytes[i];
        if b != PERCENT {
            out.push(b);
            assert(rest.skip(1) =~= all.skip(i + 1));
            assert(out@ + percent_decode(all.skip(i + 1)) =~= before + percent_decode(rest));
            i += 1;
        } else if i + 1 == bytes.len() {
            out.push(PERCENT);
            assert(all.skip(i + 1) =~= Seq::<u8>::empty());
            assert(out@ + percent_decode(all.skip(i + 1)) =~= before + percent_decode(rest));
            i += 1;
        } else {
            let first = bytes[i + 1];
            match from_hex_digit(first) {
                None => {
                    out.push(PERCENT);
                    out.push(first);
                    assert(rest.skip(2) =~= all.skip(i + 2));
                    assert(out@ + percent_decode(all.skip(i + 2)) =~= before + percent_decode(rest));
                    i += 2;
                },
                Some(hi) => {
                    if i + 2 == bytes.len() {
                        out.push(PERCENT);
                        out.push(first);
                        assert(all.skip(i + 2) =~= Seq::<u8>::empty());
                        assert(out@ + percent_decode(all.skip(i + 2)) =~= before + percent_decode(rest));
                        i += 2;
                    } else {
                        let second = bytes[i + 2];
                        assert(rest.skip(3) =~= all.skip(i + 3));
                        match from_hex_digit(second) {
                            None => {
                                out.push(PERCENT);
                                out.push(first);
                                out.push(second);
                                assert(out@ + percent_decode(all.skip(i + 3)) =~= before
                                    + percent_decode(rest));
                            },
                            Some(lo) => {
                                proof {
                                    lemma_hex_value_bound(first);
                                    lemma_hex_value_bound(second);
                                }
                                assert((hi << 4) | lo == (hi * 16 + lo) as u8) by (bit_vector)
                                    requires
                                        hi < 16,
                                        lo < 16,
                                ;
                                out.push((hi << 4) | lo);
                                assert(out@ + percent_decode(all.skip(i + 3)) =~= before
                                    + percent_decode(rest));
                            },
                        }
                        i += 3;
                    }
                },
            }
        }
    }
    assert(all.skip(i as int) =~= Seq::<u8>::empty());
    assert(out@ =~= percent_decode(encode_utf8(string@)));
    match string_from_utf8(out) {
        Ok(s) => Ok(s),
        Err(error) => Err(FromUrlEncodingError::Utf8CharacterError { error }),
    }
}

/// Every byte is unreserved.
pub open spec fn all_unreserved(bytes: Seq<u8>) -> bool {
    forall|i: int| 0 <= i < bytes.len() ==> is_unreserved(#[trigger] bytes[i])
}

/// The encoding, read from the front: the first byte's escape, then the rest.
pub proof fn lemma_percent_encode_first(bytes: Seq<u8>)
    requires
        bytes.len() > 0,
    ensures
        percent_encode(bytes) == escape(bytes[0]) + percent_encode(bytes.drop_first()),
    decreases bytes.len(),
{
    if bytes.len() == 1 {
        assert(bytes.drop_last() =~= Seq::<u8>::empty());
        assert(bytes.drop_first() =~= Seq::<u8>::empty());
        assert(percent_encode(bytes) =~= escape(bytes[0]));
    } else {
        let init = bytes.drop_last();
        lemma_percent_encode_first(init);
        assert(init.drop_first() =~= bytes.drop_first().drop_last());
        assert(bytes.drop_first().last() == bytes.last());
        assert(percent_encode(bytes) =~= escape(bytes[0]) + percent_encode(bytes.drop_first()));
    }
}

/// Decoding one byte's escape, followed by anything, gives that byte back first.
pub proof fn lemma_decode_escape(b: u8, rest: Seq<u8>)
    ensures
        percent_decode(escape(b) + rest) == seq![b] + percent_decode(rest),
{
    let s = escape(b) + rest;
    if is_unreserved(b) {
        assert(s.skip(1) =~= rest);
    } else {
        let hi = b >> 4;
        let lo = b & 15;
        assert(hi < 16 && lo < 16 && (hi * 16 + lo) as u8 == b) by (bit_vector)
            requires
                hi == b >> 4,
                lo == b & 15,
        ;
        lemma_hex_value_of_digit(hi);
        lemma_hex_value_of_digit(lo);
        assert(s[1] == hex_digit(hi) && s[2] == hex_digit(lo));
        assert(s.skip(3) =~= rest);
    }
}

/// Decoding an encoding gives the bytes back.
pub proof fn lemma_decode_encode(bytes: Seq<u8>)
    ensures
        percent_decode(percent_encode(bytes)) == bytes,
    decreases bytes.len(),
{
    if bytes.len() > 0 {
        lemma_percent_encode_first(bytes);
        lemma_decode_escape(bytes[0], percent_encode(bytes.drop_first()));
        lemma_decode_encode(bytes.drop_first());
        assert(seq![bytes[0]] + bytes.drop_first() =~= bytes);
    }
}

/// Decoding the encoding of any text gives the text back.
pub proof fn law_round_trip(text: Seq<char>)
    ensures
        decoded(encoded(text)) == Some(text),
{
    let escaped = percent_encode(encode_utf8(text));
    lemma_percent_encode_ascii(encode_utf8(text));
    lemma_ascii_utf8(escaped);
    decode_utf8_encode_utf8(escaped);
    lemma_decode_encode(encode_utf8(text));
    encode_utf8_valid_utf8(text);
    encode_utf8_decode_utf8(text);
}

/// Unreserved bytes are their own encoding.
pub proof fn lemma_encode_unreserved(bytes: Seq<u8>)
    requires
        all_unreserved(bytes),
    ensures
        percent_encode(bytes) == bytes,
    decreases bytes.len(),
{
    if bytes.len() > 0 {
        lemma_encode_unreserved(bytes.drop_last());
        assert(bytes.drop_last().push(bytes.last()) =~= bytes);
    }
}

/// An encoding is never shorter than its input, and it is longer whenever
/// some byte needed an escape.
pub proof fn lemma_encode_len(bytes: Seq<u8>)
    ensures
        percent_encode(bytes).len() >= bytes.len(),
        !all_unreserved(bytes) ==> percent_encode(bytes).len() > bytes.len(),
    decreases bytes.len(),
{
    if bytes.len() > 0 {
        let init = bytes.drop_last();
        lemma_encode_len(init);
        if !all_unreserved(bytes) && all_unreserved(init) {
            let j = choose|j: int| 0 <= j < bytes.len() && !is_unreserved(#[trigger] bytes[j]);
            if j < init.len() {
                assert(init[j] == bytes[j]);
            }
        }
    }
}

/// An encoding made only of unreserved bytes had only unreserved bytes to encode.
pub proof fn lemma_unreserved_encoding(bytes: Seq<u8>)
    requires
        all_unreserved(percent_encode(bytes)),
    ensures
        all_unreserved(bytes),
    decreases bytes.len(),
{
    if bytes.len() > 0 {
        let init = bytes.drop_last();
        let a = percent_encode(init);
        let e = escape(bytes.last());
        assert(percent_encode(bytes) == a + e);
        assert forall|i: int| 0 <= i < a.len() implies is_unreserved(#[trigger] a[i]) by {
            assert((a + e)[i] == a[i]);
        }
        assert(is_unreserved(e[0])) by {
            assert((a + e)[a.len() as int] == e[0]);
        }
        lemma_unreserved_encoding(init);
        assert forall|i: int| 0 <= i < bytes.len() implies is_unreserved(#[trigger] bytes[i]) by {
            if i < init.len() {
                assert(init[i] == bytes[i]);
            }
        }
    }
}

/// Text whose UTF-8 bytes are all unreserved encodes to itself.
pub proof fn law_unreserved_text_unchanged(text: Seq<char>)
    requires
        all_unreserved(encode_utf8(text)),
    ensures
        encoded(text) == text,
{
    lemma_encode_unreserved(encode_utf8(text));
    encode_utf8_decode_utf8(text);
}

/// Encoding a second time changes nothing exactly when the text needed no
/// escape: otherwise the `%` of each escape is itself escaped, as `%25`.
pub proof fn law_encode_twice(text: Seq<char>)
    ensures
        (encoded(encoded(text)) == encoded(text)) <==> all_unreserved(encode_utf8(text)),
{
    let bytes = encode_utf8(text);
    let once = percent_encode(bytes);
    let twice = percent_encode(once);
    lemma_percent_encode_ascii(bytes);
    lemma_percent_encode_ascii(once);
    lemma_ascii_utf8(once);
    lemma_ascii_utf8(twice);
    decode_utf8_encode_utf8(once);
    decode_utf8_encode_utf8(twice);
    assert(encoded(text) == decode_utf8(once));
    assert(encoded(encoded(text)) == decode_utf8(twice));
    if all_unreserved(bytes) {
        lemma_encode_unreserved(bytes);
        lemma_encode_unreserved(once);
    }
    if encoded(encoded(text)) == encoded(text) {
        assert(twice == once);
        lemma_encode_len(once);
        lemma_unreserved_encoding(bytes);
    }
}

} // verus!
