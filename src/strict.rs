//! Strict decoding: a malformed escape is an error, reported with the
//! character where it goes wrong and that character's byte offset.

use crate::codec::{
    decode, decoded, encoded, escape, is_unreserved, lemma_ascii_utf8, lemma_percent_encode_ascii,
    lemma_percent_encode_first, law_round_trip, percent_encode, string_from_utf8, PERCENT,
};
use crate::error::FromUrlEncodingError;
use crate::hex::{from_hex_digit, hex_digit, hex_value, lemma_hex_value_of_digit};
use vstd::prelude::*;
use vstd::string::StrSliceExecFns;
use vstd::utf8::*;

verus! {

/// `o` with `n` added to the offset it holds.
pub open spec fn shifted(o: Option<int>, n: int) -> Option<int> {
    match o {
        Some(k) => Some(k + n),
        None => None,
    }
}

/// The byte offset at which the first malformed escape of `s` goes wrong,
/// reading escapes as the decoder does. It is the first byte after a `%`
/// that should be a hex digit and is not; where the input ends before the
/// two digits, it is the `%` itself.
pub open spec fn malformed_escape(s: Seq<u8>) -> Option<int>
    decreases s.len(),
{
    if s.len() == 0 {
        None
    } else if s[0] != PERCENT {
        shifted(malformed_escape(s.skip(1)), 1)
    } else if s.len() == 1 {
        Some(0)
    } else if hex_value(s[1]) is None {
        Some(1)
    } else if s.len() == 2 {
        Some(0)
    } else if hex_value(s[2]) is None {
        Some(2)
    } else {
        shifted(malformed_escape(s.skip(3)), 3)
    }
}

/// The character whose UTF-8 encoding starts at byte offset `k`.
pub open spec fn char_at(bytes: Seq<u8>, k: int) -> char {
    decode_first_scalar(bytes.skip(k)) as char
}

/// The offset of a malformed escape is inside the input, and it is a `%` or
/// follows an ASCII byte.
pub proof fn lemma_malformed_escape_position(s: Seq<u8>)
    ensures
        malformed_escape(s) matches Some(k) ==> 0 <= k < s.len() && (s[k] == PERCENT || (0 < k
            && s[k - 1] < 0x80)),
    decreases s.len(),
{
    if s.len() > 0 {
        if s[0] != PERCENT {
            lemma_malformed_escape_position(s.skip(1));
        } else if s.len() > 2 && hex_value(s[1]) is Some && hex_value(s[2]) is Some {
            lemma_malformed_escape_position(s.skip(3));
        }
    }
}

/// In valid UTF-8, a character starts at an ASCII byte and right after it.
pub proof fn lemma_valid_after_ascii(bytes: Seq<u8>, j: int)
    requires
        valid_utf8(bytes),
        0 <= j < bytes.len(),
        bytes[j] < 0x80,
    ensures
        valid_utf8(bytes.skip(j)),
        valid_utf8(bytes.skip(j + 1)),
{
    is_char_boundary_iff_not_is_continuation_byte(bytes, j);
    valid_utf8_split(bytes, j);
    let t = bytes.subrange(j, bytes.len() as int);
    assert(t =~= bytes.skip(j));
    assert(pop_first_scalar(t) =~= bytes.skip(j + 1));
}

/// Finds the first malformed escape in `bytes`, as `malformed_escape` places it.
pub fn find_malformed_escape(bytes: &[u8]) -> (r: Option<usize>)
    ensures
        r matches Some(k) ==> malformed_escape(bytes@) == Some(k as int),
        r is None ==> malformed_escape(bytes@) is None,
{
    let mut i: usize = 0;
    assert(bytes@.skip(0) =~= bytes@);
    while i < bytes.len()
        invariant
            i <= bytes@.len(),
            malformed_escape(bytes@) == shifted(malformed_escape(bytes@.skip(i as int)), i as int),
        decreases bytes@.len() - i,
    {
        let ghost rest = bytes@.skip(i as int);
        if bytes[i] != PERCENT {
            assert(rest.skip(1) =~= bytes@.skip(i + 1));
            i += 1;
        } else if i + 1 == bytes.len() {
            return Some(i);
        } else if from_hex_digit(bytes[i + 1]).is_none() {
            return Some(i + 1);
        } else if i + 2 == bytes.len() {
            return Some(i);
        } else if from_hex_digit(bytes[i + 2]).is_none() {
            return Some(i + 2);
        } else {
            assert(rest.skip(3) =~= bytes@.skip(i + 3));
            i += 3;
        }
    }
    assert(bytes@.skip(i as int) =~= Seq::<u8>::empty());
    None
}

/// The character whose encoding starts at byte offset `k` of valid UTF-8.
fn char_starting_at(bytes: &[u8], k: usize) -> (c: char)
    requires
        k < bytes@.len(),
        valid_utf8(bytes@.skip(k as int)),
    ensures
        c == char_at(bytes@, k as int),
{
    let ghost t = bytes@.skip(k as int);
    let lead = bytes[k];
    let n: usize = if lead < 0x80 {
        1
    } else if lead < 0xE0 {
        2
    } else if lead < 0xF0 {
        3
    } else {
        4
    };
    assert(n as int == length_of_first_scalar(t));
    let len = bytes.len();
    let mut piece: Vec<u8> = Vec::new();
    let mut j: usize = 0;
    while j < n
        invariant
            j <= n,
            len == bytes@.len(),
            k + n <= len,
            piece@ == bytes@.subrange(k as int, k + j),
        decreases n - j,
    {
        piece.push(bytes[k + j]);
        j += 1;
        assert(piece@ =~= bytes@.subrange(k as int, k + j));
    }
    proof {
        reveal_with_fuel(valid_utf8, 2);
        reveal_with_fuel(decode_utf8, 2);
        assert(piece@ =~= t.take(n as int));
        assert(pop_first_scalar(piece@) =~= Seq::<u8>::empty());
        assert(valid_utf8(piece@));
        assert(decode_utf8(piece@) =~= seq![char_at(bytes@, k as int)]);
    }
    match string_from_utf8(piece) {
        Ok(s) => s.as_str().get_char(0),
        Err(_) => {
            proof {
                assert(false);
            }
            '%'
        },
    }
}

/// Decodes percent escapes in `string` and fails on the first malformed one,
/// naming the character where it goes wrong and its byte offset. Without
/// malformed escapes the result is that of `decode`.
pub fn decode_strict(string: &str) -> (r: Result<String, FromUrlEncodingError>)
    ensures
        malformed_escape(encode_utf8(string@)) matches Some(k) ==> r matches Err(
            FromUrlEncodingError::UriCharacterError { character, index },
        ) && character == char_at(encode_utf8(string@), k) && index == k,
        malformed_escape(encode_utf8(string@)) is None ==> {
            &&& r matches Ok(s) ==> decoded(string@) == Some(s@)
            &&& r is Err ==> decoded(string@) is None
            &&& r matches Err(e) ==> e is Utf8CharacterError
        },
{
    let bytes = string.as_bytes();
    match find_malformed_escape(bytes) {
        Some(k) => {
            proof {
                encode_utf8_valid_utf8(string@);
                lemma_malformed_escape_position(bytes@);
                if bytes@[k as int] == PERCENT {
                    lemma_valid_after_ascii(bytes@, k as int);
                } else {
                    lemma_valid_after_ascii(bytes@, k - 1);
                }
            }
            let character = char_starting_at(bytes, k);
            Err(FromUrlEncodingError::UriCharacterError { character, index: k })
        },
        None => decode(string),
    }
}

/// One byte's escape holds nothing malformed, so the search goes on past it.
pub proof fn lemma_malformed_escape_after_escape(b: u8, rest: Seq<u8>)
    ensures
        malformed_escape(escape(b) + rest) == shifted(malformed_escape(rest), escape(b).len() as int),
{
    let s = escape(b) + rest;
    if is_unreserved(b) {
        assert(s.skip(1) =~= rest);
    } else {
        assert(b >> 4 < 16 && b & 15 < 16) by (bit_vector);
        lemma_hex_value_of_digit(b >> 4);
        lemma_hex_value_of_digit(b & 15);
        assert(s[1] == hex_digit(b >> 4) && s[2] == hex_digit(b & 15));
        assert(s.skip(3) =~= rest);
    }
}

/// An encoding holds no malformed escape.
pub proof fn lemma_encoding_well_formed(bytes: Seq<u8>)
    ensures
        malformed_escape(percent_encode(bytes)) is None,
    decreases bytes.len(),
{
    if bytes.len() > 0 {
        lemma_percent_encode_first(bytes);
        lemma_malformed_escape_after_escape(bytes[0], percent_encode(bytes.drop_first()));
        lemma_encoding_well_formed(bytes.drop_first());
    }
}

/// Strict decoding of the encoding of any text finds no malformed escape
/// and gives the text back.
pub proof fn law_strict_round_trip(text: Seq<char>)
    ensures
        malformed_escape(encode_utf8(encoded(text))) is None,
        decoded(encoded(text)) == Some(text),
{
    let escaped = percent_encode(encode_utf8(text));
    lemma_percent_encode_ascii(encode_utf8(text));
    lemma_ascii_utf8(escaped);
    decode_utf8_encode_utf8(escaped);
    lemma_encoding_well_formed(encode_utf8(text));
    law_round_trip(text);
}

} // verus!
