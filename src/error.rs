//! The error values that decoding reports.
use crate::text::{display_text, hex_text, pretty_bytes, pretty_string};
use vstd::prelude::*;

verus! {

/// Describes what kind of invalid backslash escape was found.
#[derive(Debug)]
pub enum InvalidBackslashKind {
    /// `\u{` with no `}` after it
    RustStyleUnicodeMissingCloseBrace,
    /// `\u{}`
    RustStyleUnicodeMissingDigits,
    /// The unicode escape is not a Unicode scalar value
    UnicodeEscapeBadCodepoint,
    /// Bytes that are not UTF-8 where hex digits belong
    HexDigitsNotUnicode,
    /// Text that is not all of `0-9A-Fa-f` where hex digits belong; holds that text
    HexDigitsNotHexDigits(Vec<u8>),
    /// `\x` not followed by a hex digit
    HexDigitsNoDigits,
    /// Bytes that are not UTF-8 where octal digits belong
    OctalDigitsNotUnicode,
    /// Octal digits outside `0-7`, or worth more than a byte
    OctalDigitsNotOctalDigits,
    /// `\u` or `\U` not followed by a hex digit
    UnicodeEscapeNoDigits,
    /// `\u` or `\U` at the end of the input
    UnicodeEscapeEndOfString,
    /// `\c` followed by a byte that names no control key
    ControlEscapeBadKey,
    /// `\c` at the end of the input
    ControlEscapeEndOfString,
    /// `\` followed by a byte that starts no escape
    BackslashEscapeUnknown,
    /// `\` at the end of the input
    BackslashEndOfString,
}

/// The mathematical value of an [`InvalidBackslashKind`]: the same variants, with bytes as a sequence.
pub enum Fault {
    RustStyleUnicodeMissingCloseBrace,
    RustStyleUnicodeMissingDigits,
    UnicodeEscapeBadCodepoint,
    HexDigitsNotUnicode,
    HexDigitsNotHexDigits(Seq<u8>),
    HexDigitsNoDigits,
    OctalDigitsNotUnicode,
    OctalDigitsNotOctalDigits,
    UnicodeEscapeNoDigits,
    UnicodeEscapeEndOfString,
    ControlEscapeBadKey,
    ControlEscapeEndOfString,
    BackslashEscapeUnknown,
    BackslashEndOfString,
}

impl View for InvalidBackslashKind {
    type V = Fault;

    open spec fn view(&self) -> Fault {
        match self {
            InvalidBackslashKind::RustStyleUnicodeMissingCloseBrace => Fault::RustStyleUnicodeMissingCloseBrace,
            InvalidBackslashKind::RustStyleUnicodeMissingDigits => Fault::RustStyleUnicodeMissingDigits,
            InvalidBackslashKind::UnicodeEscapeBadCodepoint => Fault::UnicodeEscapeBadCodepoint,
            InvalidBackslashKind::HexDigitsNotUnicode => Fault::HexDigitsNotUnicode,
            InvalidBackslashKind::HexDigitsNotHexDigits(v) => Fault::HexDigitsNotHexDigits(v@),
            InvalidBackslashKind::HexDigitsNoDigits => Fault::HexDigitsNoDigits,
            InvalidBackslashKind::OctalDigitsNotUnicode => Fault::OctalDigitsNotUnicode,
            InvalidBackslashKind::OctalDigitsNotOctalDigits => Fault::OctalDigitsNotOctalDigits,
            InvalidBackslashKind::UnicodeEscapeNoDigits => Fault::UnicodeEscapeNoDigits,
            InvalidBackslashKind::UnicodeEscapeEndOfString => Fault::UnicodeEscapeEndOfString,
            InvalidBackslashKind::ControlEscapeBadKey => Fault::ControlEscapeBadKey,
            InvalidBackslashKind::ControlEscapeEndOfString => Fault::ControlEscapeEndOfString,
            InvalidBackslashKind::BackslashEscapeUnknown => Fault::BackslashEscapeUnknown,
            InvalidBackslashKind::BackslashEndOfString => Fault::BackslashEndOfString,
        }
    }
}

/// Error type of the decoding functions.
#[derive(Debug)]
pub enum UnescapeError {
    /// An invalid backslash escape sequence
    InvalidBackslash {
        /// Which kind of invalid escape, where decoding failed
        kind: InvalidBackslashKind,
        /// The byte offset of the escape's backslash
        offset: usize,
        /// The escape's bytes shown as text
        string: String,
        /// The escape's bytes as hex
        bytes: String,
    },
    /// The input ended before the closing delimiter byte
    MissingClose {
        /// The delimiter shown as text
        string: String,
        /// The delimiter as hex
        bytes: String,
    },
}

/// True when `e` reports the invalid escape of kind `kind` at `offset`, whose bytes are `raw`.
pub open spec fn is_invalid_backslash(e: UnescapeError, kind: Fault, offset: int, raw: Seq<u8>) -> bool {
    match e {
        UnescapeError::InvalidBackslash { kind: k, offset: o, string, bytes } => {
            &&& k@ == kind
            &&& o == offset
            &&& string@ == display_text(raw)
            &&& bytes@ == hex_text(raw)
        },
        _ => false,
    }
}

/// True when `e` reports that the delimiter `d` was never found.
pub open spec fn is_missing_close(e: UnescapeError, d: u8) -> bool {
    match e {
        UnescapeError::MissingClose { string, bytes } => {
            &&& string@ == display_text(seq![d])
            &&& bytes@ == hex_text(seq![d])
        },
        _ => false,
    }
}

impl UnescapeError {
    /// Builds the [`MissingClose`](UnescapeError::MissingClose) error for a one-byte delimiter.
    pub fn missing_close(byte: u8) -> (r: Self)
        ensures
            is_missing_close(r, byte),
    {
        let one: [u8; 1] = [byte];
        let s = one.as_slice();
        assert(s@ =~= seq![byte]);
        UnescapeError::MissingClose { string: pretty_string(s), bytes: pretty_bytes(s) }
    }

    /// Builds the [`InvalidBackslash`](UnescapeError::InvalidBackslash) error for the escape
    /// `bytes` that starts at `offset`.
    pub fn invalid_backslash(offset: usize, bytes: &[u8], kind: InvalidBackslashKind) -> (r: Self)
        ensures
            is_invalid_backslash(r, kind@, offset as int, bytes@),
    {
        UnescapeError::InvalidBackslash {
            kind: kind,
            offset: offset,
            string: pretty_string(bytes),
            bytes: pretty_bytes(bytes),
        }
    }
}

} // verus!
