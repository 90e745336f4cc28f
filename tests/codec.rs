use urlencoding::{decode, encode, encode_into, from_hex_digit, to_hex_digit, FromUrlEncodingError};

#[test]
fn it_encodes_successfully() {
    let expected = "this%20that";
    assert_eq!(expected, encode("this that"));
}

#[test]
fn it_encodes_successfully_emoji() {
    let emoji_string = "\u{1F47E} Exterminate!";
    let expected = "%F0%9F%91%BE%20Exterminate%21";
    assert_eq!(expected, encode(emoji_string));
}

#[test]
fn it_decodes_successfully() {
    let expected = String::from("this that");
    let encoded = "this%20that";
    assert_eq!(expected, decode(encoded).unwrap());
}

#[test]
fn it_decodes_successfully_emoji() {
    let expected = String::from("\u{1F47E} Exterminate!");
    let encoded = "%F0%9F%91%BE%20Exterminate%21";
    assert_eq!(expected, decode(encoded).unwrap());
}

#[test]
fn it_decodes_unsuccessfully_emoji() {
    let bad_encoded_string = "\u{f0}\u{178}\u{2018}\u{be} Exterminate!";

    assert_eq!(bad_encoded_string, decode(bad_encoded_string).unwrap());
}

#[test]
fn misc() {
    assert_eq!(3, from_hex_digit(b'3').unwrap());
    assert_eq!(10, from_hex_digit(b'a').unwrap());
    assert_eq!(15, from_hex_digit(b'F').unwrap());
    assert_eq!(None, from_hex_digit(b'G'));
    assert_eq!(None, from_hex_digit(9));

    assert_eq!("pureascii", encode("pureascii"));
    assert_eq!("pureascii", decode("pureascii").unwrap());
    assert_eq!("", encode(""));
    assert_eq!("", decode("").unwrap());
    assert_eq!("%00", encode("\0"));
    assert_eq!("\0", decode("\0").unwrap());
    assert!(decode("%F0%0F%91%BE%20Hello%21").is_err());
    assert_eq!("this%2that", decode("this%2that").unwrap());
    assert_eq!("this that", decode("this%20that").unwrap());
    assert_eq!("this that%", decode("this%20that%").unwrap());
    assert_eq!("this that%2", decode("this%20that%2").unwrap());
}

#[test]
fn empty_input() {
    assert_eq!("", encode(""));
    assert_eq!("", decode("").unwrap());
}

#[test]
fn single_space() {
    assert_eq!("%20", encode(" "));
    assert_eq!(" ", decode("%20").unwrap());
}

#[test]
fn null_byte() {
    assert_eq!("%00", encode("\0"));
    assert_eq!("\0", decode("\0").unwrap());
    assert_eq!("\0", decode("%00").unwrap());
}

#[test]
fn unreserved_text_is_unchanged() {
    let unreserved = "ABCDEFGHIJKLMNOPQRSTUVWXYZabcdefghijklmnopqrstuvwxyz0123456789-._~";
    assert_eq!(unreserved, encode(unreserved));
}

#[test]
fn reserved_ascii_is_escaped() {
    assert_eq!("%2F%3F%26%3D%2B%25%21%2A", encode("/?&=+%!*"));
    assert_eq!("%7F%60%40%5B%7B", encode("\u{7f}`@[{"));
}

#[test]
fn decode_accepts_lowercase_digits() {
    assert_eq!("/?", decode("%2f%3F").unwrap());
    assert_eq!("\u{1F47E}", decode("%f0%9f%91%be").unwrap());
}

#[test]
fn malformed_escapes_pass_through() {
    assert_eq!("%", decode("%").unwrap());
    assert_eq!("%4", decode("%4").unwrap());
    assert_eq!("%G1", decode("%G1").unwrap());
    assert_eq!("%4G", decode("%4G").unwrap());
    // bytes looked at after a malformed `%` are not read again
    assert_eq!("%%41", decode("%%41").unwrap());
    assert_eq!("%4%41", decode("%4%41").unwrap());
    assert_eq!("%GAx", decode("%G%41x").unwrap());
}

#[test]
fn raw_bytes_pass_through_decode() {
    assert_eq!("a b+c/\u{e9}", decode("a b+c/\u{e9}").unwrap());
}

#[test]
fn invalid_text_is_an_error() {
    let err = decode("%FF").unwrap_err();
    assert!(matches!(err, FromUrlEncodingError::Utf8CharacterError { .. }));
    let cause = err.source().unwrap();
    assert_eq!(vec![0xFFu8], cause.as_bytes().to_vec());

    let truncated = decode("%F0%9F%91").unwrap_err();
    assert!(matches!(truncated, FromUrlEncodingError::Utf8CharacterError { .. }));
    assert!(decode("%C0%80").is_err());
    assert!(decode("%ED%A0%80").is_err());
}

#[test]
fn encoding_twice_escapes_the_percent() {
    assert_eq!("%25", encode("%"));
    assert_eq!("%2520", encode(&encode(" ")));
    assert_ne!(encode(" "), encode(&encode(" ")));
    assert_eq!("plain-text_1.0~", encode(&encode("plain-text_1.0~")));
}

#[test]
fn round_trip_on_assorted_text() {
    let samples = [
        "",
        "hello world",
        "100% sure?",
        "caf\u{e9} \u{65e5}\u{672c} \u{1F47E}",
        "%%%",
        "a%20b",
        "\0\u{1}\u{7f}",
    ];
    for s in samples.iter() {
        let e = encode(s);
        assert!(e.is_ascii());
        assert_eq!(*s, decode(&e).unwrap());
    }
    let all_ascii: String = (0u8..128).map(|b| b as char).collect();
    assert_eq!(all_ascii, decode(&encode(&all_ascii)).unwrap());
}

#[test]
fn encode_into_appends() {
    let mut out = b"x=".to_vec();
    encode_into("a b", &mut out);
    assert_eq!(b"x=a%20b".to_vec(), out);
}

#[test]
fn hex_digits_in_uppercase() {
    assert_eq!(b'0', to_hex_digit(0));
    assert_eq!(b'9', to_hex_digit(9));
    assert_eq!(b'A', to_hex_digit(10));
    assert_eq!(b'F', to_hex_digit(15));
    assert_eq!(Some(0), from_hex_digit(b'0'));
    assert_eq!(Some(12), from_hex_digit(b'c'));
    assert_eq!(None, from_hex_digit(b'g'));
    assert_eq!(None, from_hex_digit(b'%'));
}
