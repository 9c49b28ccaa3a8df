//! What holds of decoding on whole families of inputs.
use crate::digits::{all_digits_in, is_digit_in, run_len, value_of};
use crate::error::Fault;
use crate::escape::{brace_len, escape_outcome, simple_escape, EscapeOutcome, BACKSLASH};
use crate::scan::{scan, unescaped, ScanEnd};
use crate::text::is_codepoint;
use vstd::prelude::*;
use vstd::utf8::{encode_scalar, valid_utf8};

verus! {

/// Where `s` holds digits of `radix` from `i` to its end, and no more than `max` of them,
/// the run from `i` covers them all.
proof fn lemma_run_to_end(s: Seq<u8>, i: int, max: nat, radix: nat)
    requires
        0 <= i <= s.len(),
        s.len() - i <= max,
        forall|k: int| i <= k < s.len() ==> is_digit_in(#[trigger] s[k], radix),
    ensures
        run_len(s, i, max, radix) == s.len() - i,
    decreases max,
{
    if i < s.len() {
        lemma_run_to_end(s, i + 1, (max - 1) as nat, radix);
    }
}

/// Where no `}` stands in `s` from `i` up to `k`, and one stands at `k`, the text before
/// the brace is `k - i` bytes long.
proof fn lemma_brace_at(s: Seq<u8>, i: int, k: int)
    requires
        0 <= i <= k < s.len(),
        s[k] == 0x7D,
        forall|j: int| i <= j < k ==> #[trigger] s[j] != 0x7D,
    ensures
        brace_len(s, i) == k - i,
    decreases k - i,
{
    if i < k {
        lemma_brace_at(s, i + 1, k);
    }
}

/// A byte that the scan copies as it stands: no backslash, and not the delimiter.
pub open spec fn is_plain(b: u8, close: Option<u8>) -> bool {
    b != BACKSLASH && close != Some(b)
}

/// Plain bytes are copied to the output one for one, and the scan goes on after them.
pub proof fn lemma_plain_run(s: Seq<u8>, i: int, k: int, close: Option<u8>)
    requires
        0 <= i <= k <= s.len(),
        forall|j: int| i <= j < k ==> is_plain(#[trigger] s[j], close),
    ensures
        scan(s, i, close).0 == s.subrange(i, k) + scan(s, k, close).0,
        scan(s, i, close).1 == scan(s, k, close).1,
    decreases k - i,
{
    if i < k {
        lemma_plain_run(s, i + 1, k, close);
        assert(s.subrange(i, k) =~= seq![s[i]] + s.subrange(i + 1, k));
    } else {
        assert(s.subrange(i, k) =~= Seq::<u8>::empty());
    }
}

/// Where the escape at the start of `s` decodes to `out` and takes up all of `s`,
/// decoding `s` gives `out`; where it is invalid, decoding fails there.
proof fn lemma_single_escape(s: Seq<u8>)
    requires
        s.len() >= 1,
        s[0] == BACKSLASH,
    ensures
        match escape_outcome(s, 0) {
            EscapeOutcome::Decoded { out, end } => end == s.len() ==> unescaped(s) == Ok::<
                Seq<u8>,
                (Fault, int, int),
            >(out),
            EscapeOutcome::Invalid { kind, end } => unescaped(s) == Err::<Seq<u8>, (Fault, int, int)>(
                (kind, 0, end),
            ),
        },
{
    match escape_outcome(s, 0) {
        EscapeOutcome::Decoded { out, end } => {
            if end == s.len() {
                assert(scan(s, end, None).0 =~= Seq::<u8>::empty());
                assert(scan(s, end, None).1 == ScanEnd::Exhausted);
                assert(scan(s, 0, None).0 == out + scan(s, end, None).0);
                assert(out + Seq::<u8>::empty() =~= out);
            }
        },
        EscapeOutcome::Invalid { kind, end } => {
            assert(scan(s, 0, None).1 == ScanEnd::Invalid { kind, start: 0, end });
        },
    }
}

/// For every byte value, `\` and one to three octal digits that spell it (zero-padded or
/// not) decode to that single byte.
pub proof fn octal_escape_gives_its_byte(d: Seq<u8>, b: u8)
    requires
        1 <= d.len() <= 3,
        all_digits_in(d, 8),
        value_of(d, 8) == b,
    ensures
        unescaped(seq![BACKSLASH] + d) == Ok::<Seq<u8>, (Fault, int, int)>(seq![b]),
{
    let s = seq![BACKSLASH] + d;
    assert forall|k: int| 2 <= k < s.len() implies is_digit_in(#[trigger] s[k], 8) by {
        assert(s[k] == d[k - 1]);
    }
    assert(d[0] == s[1]);
    lemma_run_to_end(s, 2, 2, 8);
    assert(s.subrange(1, s.len() as int) =~= d);
    reveal(escape_outcome);
    lemma_single_escape(s);
}

/// For every byte value, `\x` and one or two hex digits that spell it decode to that single byte.
pub proof fn hex_escape_gives_its_byte(d: Seq<u8>, b: u8)
    requires
        1 <= d.len() <= 2,
        all_digits_in(d, 16),
        value_of(d, 16) == b,
    ensures
        unescaped(seq![BACKSLASH, 0x78] + d) == Ok::<Seq<u8>, (Fault, int, int)>(seq![b]),
{
    let s = seq![BACKSLASH, 0x78] + d;
    assert forall|k: int| 2 <= k < s.len() implies is_digit_in(#[trigger] s[k], 16) by {
        assert(s[k] == d[k - 2]);
    }
    lemma_run_to_end(s, 2, 2, 16);
    assert(s.subrange(2, s.len() as int) =~= d);
    reveal(escape_outcome);
    lemma_single_escape(s);
}

/// What a unicode escape whose digits spell `v` decodes to: the UTF-8 encoding of `v`
/// where `v` is a Unicode scalar value, else the bad-codepoint fault over the whole escape.
pub open spec fn unicode_result(v: nat, len: int) -> Result<Seq<u8>, (Fault, int, int)> {
    if is_codepoint(v) {
        Ok(encode_scalar(v as u32))
    } else {
        Err((Fault::UnicodeEscapeBadCodepoint, 0, len))
    }
}

/// `\u` and one to four hex digits decode to the UTF-8 encoding of the value they spell;
/// a surrogate value is rejected.
pub proof fn short_unicode_escape(d: Seq<u8>)
    requires
        1 <= d.len() <= 4,
        all_digits_in(d, 16),
    ensures
        unescaped(seq![BACKSLASH, 0x75] + d) == unicode_result(value_of(d, 16), d.len() + 2int),
{
    let s = seq![BACKSLASH, 0x75] + d;
    assert forall|k: int| 2 <= k < s.len() implies is_digit_in(#[trigger] s[k], 16) by {
        assert(s[k] == d[k - 2]);
    }
    lemma_run_to_end(s, 2, 4, 16);
    assert(s.subrange(2, s.len() as int) =~= d);
    assert(s[2] == d[0]);
    reveal(escape_outcome);
    lemma_single_escape(s);
}

/// `\U` and one to eight hex digits decode to the UTF-8 encoding of the value they spell;
/// a surrogate value, or one above `0x10FFFF`, is rejected.
pub proof fn long_unicode_escape(d: Seq<u8>)
    requires
        1 <= d.len() <= 8,
        all_digits_in(d, 16),
    ensures
        unescaped(seq![BACKSLASH, 0x55] + d) == unicode_result(value_of(d, 16), d.len() + 2int),
{
    let s = seq![BACKSLASH, 0x55] + d;
    assert forall|k: int| 2 <= k < s.len() implies is_digit_in(#[trigger] s[k], 16) by {
        assert(s[k] == d[k - 2]);
    }
    lemma_run_to_end(s, 2, 8, 16);
    assert(s.subrange(2, s.len() as int) =~= d);
    reveal(escape_outcome);
    lemma_single_escape(s);
}

/// `\u{`, any text without `}`, and `}`: hex digits decode to the UTF-8 encoding of the
/// value they spell, a value that is no Unicode scalar value is rejected, and so is text
/// that is empty or not all hex digits.
pub proof fn braced_unicode_escape(c: Seq<u8>)
    requires
        forall|k: int| 0 <= k < c.len() ==> #[trigger] c[k] != 0x7D,
    ensures
        ({
            let s = seq![BACKSLASH, 0x75, 0x7B] + c + seq![0x7Du8];
            unescaped(s) == if c.len() == 0 {
                Err((Fault::RustStyleUnicodeMissingDigits, 0, s.len() as int))
            } else if !all_digits_in(c, 16) {
                if valid_utf8(c) {
                    Err((Fault::HexDigitsNotHexDigits(c), 0, s.len() as int))
                } else {
                    Err((Fault::HexDigitsNotUnicode, 0, s.len() as int))
                }
            } else {
                unicode_result(value_of(c, 16), s.len() as int)
            }
        }),
{
    let s = seq![BACKSLASH, 0x75, 0x7B] + c + seq![0x7Du8];
    assert forall|j: int| 3 <= j < s.len() - 1 implies #[trigger] s[j] != 0x7D by {
        assert(s[j] == c[j - 3]);
    }
    lemma_brace_at(s, 3, s.len() - 1);
    assert(s.subrange(3, s.len() - 1) =~= c);
    reveal(escape_outcome);
    lemma_single_escape(s);
}

/// For every key from `@` to `~`, `\c` and the key decode to the key's low five bits,
/// so that upper and lower case give the same control byte.
pub proof fn control_escape_gives_low_bits(x: u8)
    requires
        0x40 <= x <= 0x7E,
    ensures
        unescaped(seq![BACKSLASH, 0x63, x]) == Ok::<Seq<u8>, (Fault, int, int)>(seq![x & 0x1F]),
{
    let s = seq![BACKSLASH, 0x63, x];
    assert(0x40 <= x <= 0x5F ==> (x - 0x40) as u8 == x & 0x1F) by (bit_vector);
    assert(0x60 <= x <= 0x7E ==> (x - 0x60) as u8 == x & 0x1F) by (bit_vector);
    reveal(escape_outcome);
    lemma_single_escape(s);
}

/// True when `c` starts no escape after a backslash.
pub open spec fn is_unknown_escape(c: u8) -> bool {
    &&& simple_escape(c) is None
    &&& !(0x30 <= c <= 0x39)
    &&& c != 0x78 && c != 0x75 && c != 0x55 && c != 0x63
}

/// After plain bytes `p`, a backslash and a byte that starts no escape fail with the
/// unknown-escape fault at the offset of the backslash.
pub proof fn unknown_escape_fails_at_its_backslash(p: Seq<u8>, c: u8)
    requires
        forall|j: int| 0 <= j < p.len() ==> is_plain(#[trigger] p[j], None),
        is_unknown_escape(c),
    ensures
        unescaped(p + seq![BACKSLASH, c]) == Err::<Seq<u8>, (Fault, int, int)>(
            (Fault::BackslashEscapeUnknown, p.len() as int, p.len() + 2int),
        ),
{
    let s = p + seq![BACKSLASH, c];
    assert forall|j: int| 0 <= j < p.len() implies is_plain(#[trigger] s[j], None) by {
        assert(s[j] == p[j]);
    }
    lemma_plain_run(s, 0, p.len() as int, None);
    reveal(escape_outcome);
}

/// A backslash at the end of the input fails with the end-of-input fault, after plain bytes `p`.
pub proof fn trailing_backslash_fails(p: Seq<u8>)
    requires
        forall|j: int| 0 <= j < p.len() ==> is_plain(#[trigger] p[j], None),
    ensures
        unescaped(p + seq![BACKSLASH]) == Err::<Seq<u8>, (Fault, int, int)>(
            (Fault::BackslashEndOfString, p.len() as int, p.len() + 1int),
        ),
{
    let s = p + seq![BACKSLASH];
    assert forall|j: int| 0 <= j < p.len() implies is_plain(#[trigger] s[j], None) by {
        assert(s[j] == p[j]);
    }
    lemma_plain_run(s, 0, p.len() as int, None);
    reveal(escape_outcome);
}

/// With delimiter `d`, a scan over plain bytes up to a `d` at `k` writes exactly those
/// bytes and stops at `k`.
pub proof fn scan_stops_at_delimiter(s: Seq<u8>, k: int, d: u8)
    requires
        0 <= k < s.len(),
        s[k] == d,
        forall|j: int| 0 <= j < k ==> is_plain(#[trigger] s[j], Some(d)),
    ensures
        scan(s, 0, Some(d)) == (s.subrange(0, k), ScanEnd::Stopped(k)),
{
    lemma_plain_run(s, 0, k, Some(d));
    assert(s.subrange(0, k) + Seq::<u8>::empty() =~= s.subrange(0, k));
}

/// With delimiter `d`, a scan over plain bytes with no `d` among them writes them all and
/// fails for want of `d`.
pub proof fn scan_without_delimiter_fails(s: Seq<u8>, d: u8)
    requires
        forall|j: int| 0 <= j < s.len() ==> is_plain(#[trigger] s[j], Some(d)),
    ensures
        scan(s, 0, Some(d)) == (s, ScanEnd::MissingClose(d)),
{
    lemma_plain_run(s, 0, s.len() as int, Some(d));
    assert(s.subrange(0, s.len() as int) + Seq::<u8>::empty() =~= s);
}

} // verus!
