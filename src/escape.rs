//! What one backslash escape decodes to, and the decoders that read it.
use crate::digits::{
    all_digits_in, digit_run, digits_value, is_decimal_digit, is_digit, is_octal_digit,
    lemma_run_len_bounds, lemma_value_below, lemma_value_grows, run_len, value_of,
};
use crate::error::{is_invalid_backslash, Fault, InvalidBackslashKind, UnescapeError};
use crate::text::{is_codepoint, push_scalar, string_from_utf8};
use vstd::arithmetic::power::{lemma_pow_increases, pow};
use vstd::prelude::*;
use vstd::slice::{slice_subrange, slice_to_vec};
use vstd::utf8::{encode_scalar, valid_utf8};

verus! {

/// The byte that starts an escape.
pub const BACKSLASH: u8 = 0x5C;

/// How one escape ends.
pub enum EscapeOutcome {
    /// It stands for the bytes `out`; the input goes on at `end`.
    Decoded { out: Seq<u8>, end: int },
    /// It is invalid; its bytes end before `end`.
    Invalid { kind: Fault, end: int },
}

/// The byte that a one-letter escape stands for, if `c` is such a letter.
pub open spec fn simple_escape(c: u8) -> Option<u8> {
    if c == 0x61 {
        Some(0x07u8)  // a: bell
    } else if c == 0x62 {
        Some(0x08u8)  // b: backspace
    } else if c == 0x65 || c == 0x45 {
        Some(0x1Bu8)  // e, E: escape
    } else if c == 0x66 {
        Some(0x0Cu8)  // f: form feed
    } else if c == 0x6E {
        Some(0x0Au8)  // n: line feed
    } else if c == 0x72 {
        Some(0x0Du8)  // r: carriage return
    } else if c == 0x74 {
        Some(0x09u8)  // t: tab
    } else if c == 0x76 {
        Some(0x0Bu8)  // v: vertical tab
    } else if c == BACKSLASH || c == 0x27 || c == 0x22 {
        Some(c)  // a backslash, a single or a double quote stands for itself
    } else {
        None
    }
}

/// `\` and a digit: up to two more octal digits follow; together they must be octal and fit in a byte.
pub open spec fn octal_outcome(s: Seq<u8>, i: int) -> EscapeOutcome {
    let end = i + 2 + run_len(s, i + 2, 2, 8);
    let v = value_of(s.subrange(i + 1, end), 8);
    if is_octal_digit(s[i + 1]) && v <= 0xFF {
        EscapeOutcome::Decoded { out: seq![v as u8], end }
    } else {
        EscapeOutcome::Invalid { kind: Fault::OctalDigitsNotOctalDigits, end }
    }
}

/// `\x`: one or two hex digits give a byte.
pub open spec fn hex_byte_outcome(s: Seq<u8>, i: int) -> EscapeOutcome {
    let n = run_len(s, i + 2, 2, 16);
    if n == 0 {
        EscapeOutcome::Invalid { kind: Fault::HexDigitsNoDigits, end: i + 2 }
    } else {
        EscapeOutcome::Decoded {
            out: seq![value_of(s.subrange(i + 2, i + 2 + n), 16) as u8],
            end: i + 2 + n,
        }
    }
}

/// `\u` or `\U` with at least one more byte: one to `max` hex digits give a scalar value,
/// written as UTF-8.
pub open spec fn unicode_outcome(s: Seq<u8>, i: int, max: nat) -> EscapeOutcome {
    let n = run_len(s, i + 2, max, 16);
    let v = value_of(s.subrange(i + 2, i + 2 + n), 16);
    if n == 0 {
        EscapeOutcome::Invalid { kind: Fault::UnicodeEscapeNoDigits, end: i + 3 }
    } else if is_codepoint(v) {
        EscapeOutcome::Decoded { out: encode_scalar(v as u32), end: i + 2 + n }
    } else {
        EscapeOutcome::Invalid { kind: Fault::UnicodeEscapeBadCodepoint, end: i + 2 + n }
    }
}

/// How many bytes stand in `s` from `j` on before the first `}` (or the end).
pub open spec fn brace_len(s: Seq<u8>, j: int) -> nat
    decreases s.len() - j,
{
    if j < 0 || j >= s.len() || s[j] == 0x7D {
        0
    } else {
        1 + brace_len(s, j + 1)
    }
}

/// The text between `\u{` and `}`: non-empty hex digits that give a scalar value.
pub open spec fn braced_digits_outcome(content: Seq<u8>, end: int) -> EscapeOutcome {
    let v = value_of(content, 16);
    if content.len() == 0 {
        EscapeOutcome::Invalid { kind: Fault::RustStyleUnicodeMissingDigits, end }
    } else if !all_digits_in(content, 16) {
        if valid_utf8(content) {
            EscapeOutcome::Invalid { kind: Fault::HexDigitsNotHexDigits(content), end }
        } else {
            EscapeOutcome::Invalid { kind: Fault::HexDigitsNotUnicode, end }
        }
    } else if is_codepoint(v) {
        EscapeOutcome::Decoded { out: encode_scalar(v as u32), end }
    } else {
        EscapeOutcome::Invalid { kind: Fault::UnicodeEscapeBadCodepoint, end }
    }
}

/// `\u{`: everything up to the next `}` is the hex text of a scalar value.
pub open spec fn braced_outcome(s: Seq<u8>, i: int) -> EscapeOutcome {
    let close = i + 3 + brace_len(s, i + 3);
    if close >= s.len() {
        EscapeOutcome::Invalid { kind: Fault::RustStyleUnicodeMissingCloseBrace, end: s.len() as int }
    } else {
        braced_digits_outcome(s.subrange(i + 3, close), close + 1)
    }
}

/// `\c`: the next byte names a control key, in either case.
pub open spec fn control_outcome(s: Seq<u8>, i: int) -> EscapeOutcome {
    if i + 2 >= s.len() {
        EscapeOutcome::Invalid { kind: Fault::ControlEscapeEndOfString, end: i + 2 }
    } else {
        let k = s[i + 2];
        if 0x40 <= k <= 0x5F {
            EscapeOutcome::Decoded { out: seq![(k - 0x40) as u8], end: i + 3 }
        } else if 0x60 <= k <= 0x7E {
            EscapeOutcome::Decoded { out: seq![(k - 0x60) as u8], end: i + 3 }
        } else {
            EscapeOutcome::Invalid { kind: Fault::ControlEscapeBadKey, end: i + 3 }
        }
    }
}

/// How the escape whose backslash stands at index `i` of `s` decodes.
#[verifier::opaque]
pub open spec fn escape_outcome(s: Seq<u8>, i: int) -> EscapeOutcome {
    if i + 1 >= s.len() {
        EscapeOutcome::Invalid { kind: Fault::BackslashEndOfString, end: s.len() as int }
    } else {
        let c = s[i + 1];
        if simple_escape(c) is Some {
            EscapeOutcome::Decoded { out: seq![simple_escape(c)->Some_0], end: i + 2 }
        } else if is_decimal_digit(c) {
            octal_outcome(s, i)
        } else if c == 0x78 {
            hex_byte_outcome(s, i)
        } else if c == 0x75 {
            if i + 2 >= s.len() {
                EscapeOutcome::Invalid { kind: Fault::UnicodeEscapeEndOfString, end: i + 2 }
            } else if s[i + 2] == 0x7B {
                braced_outcome(s, i)
            } else {
                unicode_outcome(s, i, 4)
            }
        } else if c == 0x55 {
            if i + 2 >= s.len() {
                EscapeOutcome::Invalid { kind: Fault::UnicodeEscapeEndOfString, end: i + 2 }
            } else {
                unicode_outcome(s, i, 8)
            }
        } else if c == 0x63 {
            control_outcome(s, i)
        } else {
            EscapeOutcome::Invalid { kind: Fault::BackslashEscapeUnknown, end: i + 2 }
        }
    }
}

/// An escape always moves past its backslash, and never past the input.
pub proof fn lemma_escape_end(s: Seq<u8>, i: int)
    requires
        0 <= i < s.len(),
    ensures
        match escape_outcome(s, i) {
            EscapeOutcome::Decoded { end, .. } => i < end <= s.len(),
            EscapeOutcome::Invalid { end, .. } => i < end <= s.len(),
        },
{
    reveal(escape_outcome);
    if i + 2 <= s.len() {
        lemma_run_len_bounds(s, i + 2, 2, 8);
        lemma_run_len_bounds(s, i + 2, 2, 16);
        lemma_run_len_bounds(s, i + 2, 4, 16);
        lemma_run_len_bounds(s, i + 2, 8, 16);
    }
}

/// What a sub-decoder reports: the end of the escape and its bytes, or its fault and end.
pub open spec fn reports(
    r: Result<usize, (InvalidBackslashKind, usize)>,
    before: Seq<u8>,
    after: Seq<u8>,
    o: EscapeOutcome,
) -> bool {
    match o {
        EscapeOutcome::Decoded { out, end } => r is Ok && r->Ok_0 == end && after =~= before + out,
        EscapeOutcome::Invalid { kind, end } => {
            &&& r is Err
            &&& r->Err_0.0@ == kind
            &&& r->Err_0.1 == end
            &&& after == before
        },
    }
}

/// Powers of the two radixes that bound the digit runs.
proof fn lemma_small_powers()
    ensures
        pow(8, 3) == 512,
        pow(16, 2) == 256,
        pow(16, 8) == 0x1_0000_0000,
{
    reveal_with_fuel(pow, 9);
}

/// The byte that a one-letter escape stands for.
fn simple_escape_byte(c: u8) -> (r: Option<u8>)
    ensures
        r == simple_escape(c),
{
    match c {
        0x61 => Some(0x07),
        0x62 => Some(0x08),
        0x65 | 0x45 => Some(0x1B),
        0x66 => Some(0x0C),
        0x6E => Some(0x0A),
        0x72 => Some(0x0D),
        0x74 => Some(0x09),
        0x76 => Some(0x0B),
        0x5C | 0x27 | 0x22 => Some(c),
        _ => None,
    }
}

/// `\` and a digit at `i`: reads up to two more octal digits, each only if it is one.
fn decode_octal(bytes: &[u8], i: usize, out: &mut Vec<u8>) -> (r: Result<usize, (InvalidBackslashKind, usize)>)
    requires
        i + 1 < bytes@.len(),
    ensures
        reports(r, old(out)@, final(out)@, octal_outcome(bytes@, i as int)),
{
    let len = bytes.len();
    let n = digit_run(bytes, i + 2, 2, 8);
    let end = i + 2 + n;
    proof {
        lemma_run_len_bounds(bytes@, i + 2, 2, 8);
    }
    if bytes[i + 1] > 0x37 || bytes[i + 1] < 0x30 {
        return Err((InvalidBackslashKind::OctalDigitsNotOctalDigits, end));
    }
    proof {
        let d = bytes@.subrange(i + 1, end as int);
        assert forall|k: int| 0 <= k < d.len() implies is_octal_digit(#[trigger] d[k]) by {
            if k > 0 {
                assert(d[k] == bytes@.subrange(i + 2, end as int)[k - 1]);
            }
        }
        assert(all_digits_in(d, 8));
        lemma_small_powers();
        lemma_pow_increases(8, (end - (i + 1)) as nat, 3);
    }
    let v = digits_value(bytes, i + 1, end, 8);
    if v > 0xFF {
        return Err((InvalidBackslashKind::OctalDigitsNotOctalDigits, end));
    }
    out.push(v as u8);
    Ok(end)
}

/// `\x` at `i`: reads one or two hex digits, each only if it is one.
fn decode_hex_byte(bytes: &[u8], i: usize, out: &mut Vec<u8>) -> (r: Result<usize, (InvalidBackslashKind, usize)>)
    requires
        i + 1 < bytes@.len(),
    ensures
        reports(r, old(out)@, final(out)@, hex_byte_outcome(bytes@, i as int)),
{
    let len = bytes.len();
    let n = digit_run(bytes, i + 2, 2, 16);
    if n == 0 {
        return Err((InvalidBackslashKind::HexDigitsNoDigits, i + 2));
    }
    let end = i + 2 + n;
    proof {
        lemma_run_len_bounds(bytes@, i + 2, 2, 16);
        lemma_small_powers();
        lemma_pow_increases(16, n as nat, 2);
        lemma_value_below(bytes@.subrange(i + 2, end as int), 16);
    }
    let v = digits_value(bytes, i + 2, end, 16);
    out.push(v as u8);
    Ok(end)
}

/// `\u` or `\U` at `i`, not followed by `{`: reads one to `max` hex digits, each only if it is one.
fn decode_unicode(bytes: &[u8], i: usize, max: usize, out: &mut Vec<u8>) -> (r: Result<usize, (InvalidBackslashKind, usize)>)
    requires
        i + 2 < bytes@.len(),
        max == 4 || max == 8,
    ensures
        reports(r, old(out)@, final(out)@, unicode_outcome(bytes@, i as int, max as nat)),
{
    let len = bytes.len();
    let n = digit_run(bytes, i + 2, max, 16);
    if n == 0 {
        return Err((InvalidBackslashKind::UnicodeEscapeNoDigits, i + 3));
    }
    let end = i + 2 + n;
    proof {
        lemma_run_len_bounds(bytes@, i + 2, max as nat, 16);
        lemma_small_powers();
        lemma_pow_increases(16, n as nat, 8);
    }
    let v = digits_value(bytes, i + 2, end, 16);
    if v <= 0x10FFFF && !(0xD800 <= v && v <= 0xDFFF) {
        push_scalar(out, v);
        Ok(end)
    } else {
        Err((InvalidBackslashKind::UnicodeEscapeBadCodepoint, end))
    }
}

/// Tells whether `bytes[from..to]` is all hex digits.
fn all_hex(bytes: &[u8], from: usize, to: usize) -> (r: bool)
    requires
        from <= to <= bytes@.len(),
    ensures
        r == all_digits_in(bytes@.subrange(from as int, to as int), 16),
{
    let mut k: usize = from;
    while k < to
        invariant
            from <= k <= to <= bytes@.len(),
            all_digits_in(bytes@.subrange(from as int, k as int), 16),
        decreases to - k,
    {
        if !is_digit(bytes[k], 16) {
            assert(bytes@.subrange(from as int, to as int)[k - from] == bytes@[k as int]);
            return false;
        }
        assert forall|j: int| 0 <= j < k + 1 - from implies crate::digits::is_digit_in(
            #[trigger] bytes@.subrange(from as int, k + 1)[j],
            16,
        ) by {
            if j < k - from {
                assert(bytes@.subrange(from as int, k + 1)[j] == bytes@.subrange(
                    from as int,
                    k as int,
                )[j]);
            }
        }
        k = k + 1;
    }
    true
}

/// The value of the hex digits `bytes[from..to]` where it is at most `0x10FFFF`, else `None`.
fn capped_hex_value(bytes: &[u8], from: usize, to: usize) -> (r: Option<u32>)
    requires
        from <= to <= bytes@.len(),
        all_digits_in(bytes@.subrange(from as int, to as int), 16),
    ensures
        match r {
            Some(v) => v == value_of(bytes@.subrange(from as int, to as int), 16) && v <= 0x10FFFF,
            None => value_of(bytes@.subrange(from as int, to as int), 16) > 0x10FFFF,
        },
{
    let ghost d = bytes@.subrange(from as int, to as int);
    let mut v: u32 = 0;
    let mut k: usize = from;
    while k < to
        invariant
            from <= k <= to <= bytes@.len(),
            d == bytes@.subrange(from as int, to as int),
            all_digits_in(d, 16),
            v == value_of(bytes@.subrange(from as int, k as int), 16),
            v <= 0x10FFFF,
        decreases to - k,
    {
        let ghost next = bytes@.subrange(from as int, k + 1);
        proof {
            assert(next.drop_last() =~= bytes@.subrange(from as int, k as int));
            assert(next.last() == d[k - from]);
        }
        let b = bytes[k];
        let g: u32 = if b <= 0x39 {
            (b - 0x30) as u32
        } else if b <= 0x46 {
            (b - 0x37) as u32
        } else {
            (b - 0x57) as u32
        };
        v = v * 16 + g;
        k = k + 1;
        if v > 0x10FFFF {
            proof {
                assert(d.subrange(0, k - from) =~= next);
                lemma_value_grows(d, k - from, 16);
            }
            return None;
        }
    }
    assert(bytes@.subrange(from as int, k as int) =~= d);
    Some(v)
}

/// `\u{` at `i`: reads up to the next `}` and decodes the hex text between.
fn decode_braced(bytes: &[u8], i: usize, out: &mut Vec<u8>) -> (r: Result<usize, (InvalidBackslashKind, usize)>)
    requires
        i + 2 < bytes@.len(),
        bytes@[i + 2] == 0x7B,
    ensures
        reports(r, old(out)@, final(out)@, braced_outcome(bytes@, i as int)),
{
    let len = bytes.len();
    let start = i + 3;
    let mut k: usize = start;
    while k < bytes.len() && bytes[k] != 0x7D
        invariant
            start <= k <= bytes@.len(),
            brace_len(bytes@, start as int) == (k - start) + brace_len(bytes@, k as int),
        decreases bytes@.len() - k,
    {
        k = k + 1;
    }
    if k >= bytes.len() {
        return Err((InvalidBackslashKind::RustStyleUnicodeMissingCloseBrace, bytes.len()));
    }
    let end = k + 1;
    if k == start {
        return Err((InvalidBackslashKind::RustStyleUnicodeMissingDigits, end));
    }
    if !all_hex(bytes, start, k) {
        let content = slice_subrange(bytes, start, k);
        let probe = slice_to_vec(content);
        if string_from_utf8(probe).is_some() {
            return Err((InvalidBackslashKind::HexDigitsNotHexDigits(slice_to_vec(content)), end));
        } else {
            return Err((InvalidBackslashKind::HexDigitsNotUnicode, end));
        }
    }
    match capped_hex_value(bytes, start, k) {
        Some(v) => {
            if 0xD800 <= v && v <= 0xDFFF {
                Err((InvalidBackslashKind::UnicodeEscapeBadCodepoint, end))
            } else {
                push_scalar(out, v);
                Ok(end)
            }
        },
        None => Err((InvalidBackslashKind::UnicodeEscapeBadCodepoint, end)),
    }
}

/// `\c` at `i`: the next byte names a control key.
fn decode_control(bytes: &[u8], i: usize, out: &mut Vec<u8>) -> (r: Result<usize, (InvalidBackslashKind, usize)>)
    requires
        i + 1 < bytes@.len(),
    ensures
        reports(r, old(out)@, final(out)@, control_outcome(bytes@, i as int)),
{
    let len = bytes.len();
    if i + 2 >= bytes.len() {
        return Err((InvalidBackslashKind::ControlEscapeEndOfString, i + 2));
    }
    let k = bytes[i + 2];
    if 0x40 <= k && k <= 0x5F {
        out.push(k - 0x40);
        Ok(i + 3)
    } else if 0x60 <= k && k <= 0x7E {
        out.push(k - 0x60);
        Ok(i + 3)
    } else {
        Err((InvalidBackslashKind::ControlEscapeBadKey, i + 3))
    }
}

/// Chooses the decoder for the byte after the backslash at `i`.
fn dispatch(bytes: &[u8], i: usize, out: &mut Vec<u8>) -> (r: Result<usize, (InvalidBackslashKind, usize)>)
    requires
        i < bytes@.len(),
    ensures
        reports(r, old(out)@, final(out)@, escape_outcome(bytes@, i as int)),
{
    reveal(escape_outcome);
    let len = bytes.len();
    if i + 1 >= bytes.len() {
        return Err((InvalidBackslashKind::BackslashEndOfString, bytes.len()));
    }
    let c = bytes[i + 1];
    if let Some(b) = simple_escape_byte(c) {
        out.push(b);
        return Ok(i + 2);
    }
    if 0x30 <= c && c <= 0x39 {
        decode_octal(bytes, i, out)
    } else if c == 0x78 {
        decode_hex_byte(bytes, i, out)
    } else if c == 0x75 {
        if i + 2 >= bytes.len() {
            Err((InvalidBackslashKind::UnicodeEscapeEndOfString, i + 2))
        } else if bytes[i + 2] == 0x7B {
            decode_braced(bytes, i, out)
        } else {
            decode_unicode(bytes, i, 4, out)
        }
    } else if c == 0x55 {
        if i + 2 >= bytes.len() {
            Err((InvalidBackslashKind::UnicodeEscapeEndOfString, i + 2))
        } else {
            decode_unicode(bytes, i, 8, out)
        }
    } else if c == 0x63 {
        decode_control(bytes, i, out)
    } else {
        Err((InvalidBackslashKind::BackslashEscapeUnknown, i + 2))
    }
}

/// Decodes the escape whose backslash stands at `*pos`, appending what it stands for to `out`,
/// and moves `*pos` past it. An invalid escape writes nothing and is reported with its offset
/// and bytes.
pub fn decode_escape(bytes: &[u8], pos: &mut usize, out: &mut Vec<u8>) -> (r: Result<(), UnescapeError>)
    requires
        *old(pos) < bytes@.len(),
    ensures
        match escape_outcome(bytes@, *old(pos) as int) {
            EscapeOutcome::Decoded { out: o, end } => {
                &&& r is Ok
                &&& final(out)@ == old(out)@ + o
                &&& *final(pos) == end
            },
            EscapeOutcome::Invalid { kind, end } => {
                &&& r is Err
                &&& is_invalid_backslash(
                    r->Err_0,
                    kind,
                    *old(pos) as int,
                    bytes@.subrange(*old(pos) as int, end),
                )
                &&& final(out)@ == old(out)@
                &&& *final(pos) == end
            },
        },
{
    let start = *pos;
    proof {
        lemma_escape_end(bytes@, start as int);
    }
    match dispatch(bytes, start, out) {
        Ok(end) => {
            *pos = end;
            Ok(())
        },
        Err((kind, end)) => {
            *pos = end;
            let raw = slice_subrange(bytes, start, end);
            Err(UnescapeError::invalid_backslash(start, raw, kind))
        },
    }
}

} // verus!
