//! Percent-encoding of text: every byte outside the unreserved set becomes a
//! `%XX` escape, and decoding turns escapes back into bytes.

pub mod codec;
pub mod error;
pub mod hex;
pub mod strict;

pub use codec::{decode, encode, encode_into};
pub use error::FromUrlEncodingError;
pub use hex::{from_hex_digit, to_hex_digit};
pub use strict::decode_strict;
