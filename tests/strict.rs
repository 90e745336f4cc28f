use urlencoding::{decode_strict, encode, FromUrlEncodingError};

fn uri_error(input: &str) -> (char, usize) {
    match decode_strict(input) {
        Err(FromUrlEncodingError::UriCharacterError { character, index }) => (character, index),
        other => panic!("expected a character error for {:?}, got {:?}", input, other),
    }
}

#[test]
fn strict_decodes_well_formed_escapes() {
    assert_eq!("this that", decode_strict("this%20that").unwrap());
    assert_eq!("", decode_strict("").unwrap());
    assert_eq!("\0", decode_strict("\0").unwrap());
    assert_eq!("\u{1F47E} Exterminate!", decode_strict("%F0%9F%91%BE%20Exterminate%21").unwrap());
}

#[test]
fn strict_reports_non_digit_after_percent() {
    assert_eq!(('t', 6), uri_error("this%2that"));
    assert_eq!(('G', 2), uri_error("a%G1"));
    assert_eq!(('%', 1), uri_error("%%41"));
}

#[test]
fn strict_reports_escape_cut_short() {
    assert_eq!(('%', 9), uri_error("this that%"));
    assert_eq!(('%', 9), uri_error("this that%2"));
}

#[test]
fn strict_reports_whole_non_ascii_character() {
    assert_eq!(('\u{e9}', 1), uri_error("%\u{e9}"));
    assert_eq!(('\u{1F47E}', 3), uri_error("x%4\u{1F47E}"));
}

#[test]
fn strict_reports_invalid_text() {
    assert!(matches!(
        decode_strict("%F0%0F%91%BE%20Hello%21"),
        Err(FromUrlEncodingError::Utf8CharacterError { .. })
    ));
}

#[test]
fn strict_round_trip() {
    for s in ["", "a b", "100%", "caf\u{e9} \u{1F47E}", "%25"].iter() {
        assert_eq!(*s, decode_strict(&encode(s)).unwrap());
    }
}
