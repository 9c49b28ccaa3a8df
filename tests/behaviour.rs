use smashquote::{
    pretty_bytes, pretty_string, show_controls, unescape_bytes, unescape_iter, InvalidBackslashKind,
    UnescapeError,
};

fn invalid(input: &[u8]) -> (InvalidBackslashKind, usize, String, String) {
    match unescape_bytes(input) {
        Err(UnescapeError::InvalidBackslash { kind, offset, string, bytes }) => {
            (kind, offset, string, bytes)
        }
        other => panic!("expected an invalid escape, got {:?}", other),
    }
}

fn kind_of(input: &[u8]) -> InvalidBackslashKind {
    invalid(input).0
}

#[test]
fn trailing_backslash_is_end_of_string() {
    let (kind, offset, string, bytes) = invalid(b"\\");
    assert!(matches!(kind, InvalidBackslashKind::BackslashEndOfString));
    assert_eq!(offset, 0);
    assert_eq!(bytes, "5C");
    assert_eq!(string, "\\");
}

#[test]
fn trailing_backslash_after_text() {
    let (kind, offset, _, _) = invalid(b"ab\\");
    assert!(matches!(kind, InvalidBackslashKind::BackslashEndOfString));
    assert_eq!(offset, 2);
}

#[test]
fn unknown_escape_reports_its_backslash() {
    let (kind, offset, string, bytes) = invalid(b"\\q");
    assert!(matches!(kind, InvalidBackslashKind::BackslashEscapeUnknown));
    assert_eq!(offset, 0);
    assert_eq!(string, "\\q");
    assert_eq!(bytes, "5C 71");
}

#[test]
fn unknown_escape_after_text() {
    let (kind, offset, _, bytes) = invalid(b"ab\\q");
    assert!(matches!(kind, InvalidBackslashKind::BackslashEscapeUnknown));
    assert_eq!(offset, 2);
    assert_eq!(bytes, "5C 71");
}

#[test]
fn stream_stops_at_delimiter() {
    let input = b"it's";
    let mut pos: usize = 0;
    let mut out: Vec<u8> = Vec::new();
    let r = unescape_iter(input, &mut pos, &mut out, Some(b'\''));
    assert_eq!(r.unwrap(), 2);
    assert_eq!(out, b"it");
    assert_eq!(pos, 2);
}

#[test]
fn stream_resumes_after_delimiter() {
    let input = b"a'b'c";
    let mut pos: usize = 0;
    let mut out: Vec<u8> = Vec::new();
    assert_eq!(unescape_iter(input, &mut pos, &mut out, Some(b'\'')).unwrap(), 1);
    pos = pos + 1;
    assert_eq!(unescape_iter(input, &mut pos, &mut out, Some(b'\'')).unwrap(), 3);
    assert_eq!(out, b"ab");
}

#[test]
fn stream_missing_delimiter() {
    let mut pos: usize = 0;
    let mut out: Vec<u8> = Vec::new();
    match unescape_iter(b"abc", &mut pos, &mut out, Some(b'\'')) {
        Err(UnescapeError::MissingClose { string, bytes }) => {
            assert_eq!(string, "'");
            assert_eq!(bytes, "27");
        }
        other => panic!("expected a missing delimiter, got {:?}", other),
    }
    assert_eq!(out, b"abc");
    assert_eq!(pos, 3);
}

#[test]
fn escaped_delimiter_does_not_stop() {
    let input = b"a\\'b'";
    let mut pos: usize = 0;
    let mut out: Vec<u8> = Vec::new();
    assert_eq!(unescape_iter(input, &mut pos, &mut out, Some(b'\'')).unwrap(), 4);
    assert_eq!(out, b"a'b");
}

#[test]
fn stream_without_delimiter_returns_last_offset() {
    let mut pos: usize = 0;
    let mut out: Vec<u8> = Vec::new();
    assert_eq!(unescape_iter(b"ab\\n", &mut pos, &mut out, None).unwrap(), 3);
    assert_eq!(out, [b'a', b'b', 0x0A]);
    assert_eq!(pos, 4);
}

#[test]
fn empty_input() {
    let mut pos: usize = 0;
    let mut out: Vec<u8> = Vec::new();
    assert_eq!(unescape_iter(b"", &mut pos, &mut out, None).unwrap(), 0);
    assert!(out.is_empty());
    assert_eq!(unescape_bytes(b"").unwrap(), Vec::<u8>::new());
}

#[test]
fn newline_and_tab() {
    assert_eq!(unescape_bytes(b"\\n\\t").unwrap(), [0x0A, 0x09]);
}

#[test]
fn hex_letter_a() {
    assert_eq!(unescape_bytes(b"\\x41").unwrap(), [0x41]);
}

#[test]
fn braced_emoji() {
    assert_eq!(unescape_bytes(b"\\u{1F600}").unwrap(), [0xF0, 0x9F, 0x98, 0x80]);
}

#[test]
fn control_bracket_is_escape() {
    assert_eq!(unescape_bytes(b"\\c[").unwrap(), [0x1B]);
}

#[test]
fn octal_letters() {
    assert_eq!(unescape_bytes(b"\\141\\142").unwrap(), [0x61, 0x62]);
}

#[test]
fn control_is_case_insensitive() {
    assert_eq!(unescape_bytes(b"\\cA").unwrap(), [0x01]);
    assert_eq!(unescape_bytes(b"\\ca").unwrap(), [0x01]);
}

#[test]
fn plain_bytes_pass_through() {
    assert_eq!(unescape_bytes(&[0x61, 0xFF, 0x00]).unwrap(), [0x61, 0xFF, 0x00]);
}

#[test]
fn octal_stops_at_non_octal_digit() {
    assert_eq!(unescape_bytes(b"\\18").unwrap(), [0x01, b'8']);
    assert_eq!(unescape_bytes(b"\\1234").unwrap(), [0o123, b'4']);
}

#[test]
fn hex_leaves_the_next_byte() {
    assert_eq!(unescape_bytes(b"\\x4g").unwrap(), [0x04, b'g']);
    assert_eq!(unescape_bytes(b"\\x414").unwrap(), [0x41, b'4']);
}

#[test]
fn unicode_leaves_the_next_byte() {
    assert_eq!(unescape_bytes(b"\\u41z").unwrap(), b"Az");
    assert_eq!(unescape_bytes(b"\\u00e9").unwrap(), [0xC3, 0xA9]);
    assert_eq!(unescape_bytes(b"\\u20AC5").unwrap(), [0xE2, 0x82, 0xAC, b'5']);
    assert_eq!(unescape_bytes(b"\\U0001F6001").unwrap(), [0xF0, 0x9F, 0x98, 0x80, b'1']);
}

#[test]
fn braced_missing_close_brace() {
    let (kind, offset, _, bytes) = invalid(b"x\\u{41");
    assert!(matches!(kind, InvalidBackslashKind::RustStyleUnicodeMissingCloseBrace));
    assert_eq!(offset, 1);
    assert_eq!(bytes, "5C 75 7B 34 31");
}

#[test]
fn braced_missing_digits() {
    assert!(matches!(kind_of(b"\\u{}"), InvalidBackslashKind::RustStyleUnicodeMissingDigits));
}

#[test]
fn braced_not_hex_digits() {
    match kind_of(b"\\u{4z}") {
        InvalidBackslashKind::HexDigitsNotHexDigits(v) => assert_eq!(v, b"4z"),
        other => panic!("unexpected kind {:?}", other),
    }
}

#[test]
fn braced_not_unicode() {
    assert!(matches!(kind_of(b"\\u{4\xFF}"), InvalidBackslashKind::HexDigitsNotUnicode));
}

#[test]
fn braced_out_of_range() {
    assert!(matches!(kind_of(b"\\u{110000}"), InvalidBackslashKind::UnicodeEscapeBadCodepoint));
    assert!(matches!(
        kind_of(b"\\u{FFFFFFFFFFFF}"),
        InvalidBackslashKind::UnicodeEscapeBadCodepoint
    ));
    assert_eq!(unescape_bytes(b"\\u{0000000041}").unwrap(), b"A");
}

#[test]
fn surrogates_rejected() {
    assert!(matches!(kind_of(b"\\ud800"), InvalidBackslashKind::UnicodeEscapeBadCodepoint));
    assert!(matches!(kind_of(b"\\U0000DFFF"), InvalidBackslashKind::UnicodeEscapeBadCodepoint));
    assert!(matches!(kind_of(b"\\u{DABC}"), InvalidBackslashKind::UnicodeEscapeBadCodepoint));
}

#[test]
fn long_unicode_above_range() {
    assert!(matches!(kind_of(b"\\U110000"), InvalidBackslashKind::UnicodeEscapeBadCodepoint));
    assert!(matches!(kind_of(b"\\UFFFFFFFF"), InvalidBackslashKind::UnicodeEscapeBadCodepoint));
}

#[test]
fn hex_without_digits() {
    let (kind, offset, _, bytes) = invalid(b"\\xg");
    assert!(matches!(kind, InvalidBackslashKind::HexDigitsNoDigits));
    assert_eq!(offset, 0);
    assert_eq!(bytes, "5C 78");
}

#[test]
fn octal_not_octal() {
    assert!(matches!(kind_of(b"\\9"), InvalidBackslashKind::OctalDigitsNotOctalDigits));
    assert!(matches!(kind_of(b"\\8"), InvalidBackslashKind::OctalDigitsNotOctalDigits));
    assert!(matches!(kind_of(b"\\400"), InvalidBackslashKind::OctalDigitsNotOctalDigits));
    assert!(matches!(kind_of(b"\\777"), InvalidBackslashKind::OctalDigitsNotOctalDigits));
}

#[test]
fn unicode_without_digits() {
    let (kind, _, _, bytes) = invalid(b"\\uq");
    assert!(matches!(kind, InvalidBackslashKind::UnicodeEscapeNoDigits));
    assert_eq!(bytes, "5C 75 71");
    assert!(matches!(kind_of(b"\\U{41}"), InvalidBackslashKind::UnicodeEscapeNoDigits));
}

#[test]
fn unicode_at_end() {
    assert!(matches!(kind_of(b"\\u"), InvalidBackslashKind::UnicodeEscapeEndOfString));
    assert!(matches!(kind_of(b"\\U"), InvalidBackslashKind::UnicodeEscapeEndOfString));
}

#[test]
fn control_at_end() {
    assert!(matches!(kind_of(b"\\c"), InvalidBackslashKind::ControlEscapeEndOfString));
}

#[test]
fn control_bad_key() {
    let (kind, _, string, bytes) = invalid(b"\\c!");
    assert!(matches!(kind, InvalidBackslashKind::ControlEscapeBadKey));
    assert_eq!(bytes, "5C 63 21");
    assert_eq!(string, "\\c!");
    assert!(matches!(kind_of(b"\\c\x7F"), InvalidBackslashKind::ControlEscapeBadKey));
}

#[test]
fn failed_escape_writes_nothing() {
    let mut pos: usize = 0;
    let mut out: Vec<u8> = Vec::new();
    let r = unescape_iter(b"ab\\u{110000}cd", &mut pos, &mut out, None);
    assert!(r.is_err());
    assert_eq!(out, b"ab");
    assert_eq!(pos, 12);
}

#[test]
fn hex_rendering() {
    assert_eq!(pretty_bytes(&[0x5C, 0x71, 0x0A, 0xFF]), "5C 71 0A FF");
    assert_eq!(pretty_bytes(&[]), "");
    assert_eq!(pretty_bytes(&[0x00]), "00");
}

#[test]
fn display_rendering() {
    assert_eq!(pretty_string(&[0x00, 0x41, 0x7F, 0x20, 0x0A]), "\u{2400}A\u{247F}\u{2420}\u{240A}");
    assert_eq!(pretty_string(&[0x61, 0xFF, 0x62]), "a\u{FFFD}b");
    assert_eq!(pretty_string("é".as_bytes()), "é");
    assert_eq!(pretty_string(&[]), "");
}

#[test]
fn constructors() {
    match UnescapeError::missing_close(b'\n') {
        UnescapeError::MissingClose { string, bytes } => {
            assert_eq!(string, "\u{240A}");
            assert_eq!(bytes, "0A");
        }
        other => panic!("unexpected {:?}", other),
    }
    match UnescapeError::invalid_backslash(7, b"\\z", InvalidBackslashKind::BackslashEscapeUnknown) {
        UnescapeError::InvalidBackslash { kind, offset, string, bytes } => {
            assert!(matches!(kind, InvalidBackslashKind::BackslashEscapeUnknown));
            assert_eq!(offset, 7);
            assert_eq!(string, "\\z");
            assert_eq!(bytes, "5C 7A");
        }
        other => panic!("unexpected {:?}", other),
    }
}

#[test]
fn control_pictures() {
    assert_eq!(show_controls("a\tb"), "a\u{2409}b");
    assert_eq!(show_controls("\u{7F} !"), "\u{247F}\u{2420}!");
    assert_eq!(show_controls("\u{2400}"), "\u{2400}");
}
