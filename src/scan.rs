//! The scan over a whole input: plain bytes, escapes, and an optional closing delimiter.
use crate::error::{is_invalid_backslash, is_missing_close, Fault, UnescapeError};
use crate::escape::{decode_escape, escape_outcome, lemma_escape_end, EscapeOutcome, BACKSLASH};
use vstd::prelude::*;

verus! {

/// How a scan ends.
pub enum ScanEnd {
    /// It met the closing delimiter at this offset.
    Stopped(int),
    /// It used up the input, with no delimiter asked for.
    Exhausted,
    /// The escape at `start`, whose bytes end before `end`, is invalid.
    Invalid { kind: Fault, start: int, end: int },
    /// It used up the input before the delimiter.
    MissingClose(u8),
}

/// What a scan of `s` from index `i` writes, and how it ends: plain bytes are copied,
/// escapes decoded, and an unescaped `close` byte ends it.
pub open spec fn scan(s: Seq<u8>, i: int, close: Option<u8>) -> (Seq<u8>, ScanEnd)
    decreases s.len() - i,
    via scan_decreases
{
    if i < 0 || i >= s.len() {
        (
            seq![],
            match close {
                Some(d) => ScanEnd::MissingClose(d),
                None => ScanEnd::Exhausted,
            },
        )
    } else if close == Some(s[i]) {
        (seq![], ScanEnd::Stopped(i))
    } else if s[i] == BACKSLASH {
        match escape_outcome(s, i) {
            EscapeOutcome::Decoded { out, end } => {
                let rest = scan(s, end, close);
                (out + rest.0, rest.1)
            },
            EscapeOutcome::Invalid { kind, end } => (seq![], ScanEnd::Invalid { kind, start: i, end }),
        }
    } else {
        let rest = scan(s, i + 1, close);
        (seq![s[i]] + rest.0, rest.1)
    }
}

#[via_fn]
proof fn scan_decreases(s: Seq<u8>, i: int, close: Option<u8>) {
    if 0 <= i < s.len() {
        lemma_escape_end(s, i);
    }
}

/// The offset that a scan from `start` that used up `s` reports: that of the last byte,
/// or 0 where it had nothing to read.
pub open spec fn last_offset(s: Seq<u8>, start: int) -> int {
    if start < s.len() {
        s.len() - 1
    } else {
        0
    }
}

/// Decodes `bytes` from `*pos` on, appending the result to `out`.
///
/// Plain bytes are copied and escapes decoded. With `close`, an unescaped `close` byte
/// ends the scan: its offset is returned, `*pos` is left on it and nothing of it is written.
/// Without `close`, the scan reads to the end and returns the offset of the last byte (0
/// if there was none). Offsets are indices into `bytes`. The first invalid escape, or the
/// end of the input while `close` is still awaited, fails the scan; what came before it
/// has been written.
pub fn unescape_iter(bytes: &[u8], pos: &mut usize, out: &mut Vec<u8>, close: Option<u8>) -> (r: Result<usize, UnescapeError>)
    requires
        *old(pos) <= bytes@.len(),
    ensures
        final(out)@ == old(out)@ + scan(bytes@, *old(pos) as int, close).0,
        match scan(bytes@, *old(pos) as int, close).1 {
            ScanEnd::Stopped(k) => r is Ok && r->Ok_0 == k && *final(pos) == k,
            ScanEnd::Exhausted => {
                &&& r is Ok
                &&& r->Ok_0 == last_offset(bytes@, *old(pos) as int)
                &&& *final(pos) == bytes@.len()
            },
            ScanEnd::Invalid { kind, start, end } => {
                &&& r is Err
                &&& is_invalid_backslash(r->Err_0, kind, start, bytes@.subrange(start, end))
                &&& *final(pos) == end
            },
            ScanEnd::MissingClose(d) => {
                &&& r is Err
                &&& is_missing_close(r->Err_0, d)
                &&& *final(pos) == bytes@.len()
            },
        },
{
    let ghost s = bytes@;
    let first = *pos;
    let ghost whole = scan(s, first as int, close);
    let ghost out0 = out@;
    let mut i: usize = *pos;
    while i < bytes.len()
        invariant
            first <= i <= s.len(),
            first == *old(pos),
            out0 == old(out)@,
            s == bytes@,
            whole == scan(s, first as int, close),
            out0 + whole.0 == out@ + scan(s, i as int, close).0,
            whole.1 == scan(s, i as int, close).1,
        decreases s.len() - i,
    {
        let b = bytes[i];
        let is_close = match close {
            Some(d) => b == d,
            None => false,
        };
        if is_close {
            assert(close == Some(s[i as int]));
            assert(scan(s, i as int, close).0 =~= Seq::<u8>::empty());
            assert(scan(s, i as int, close).1 == ScanEnd::Stopped(i as int));
            assert(out0 + whole.0 =~= out@);
            *pos = i;
            return Ok(i);
        }
        if b == BACKSLASH {
            let ghost before = out@;
            let ghost at = i;
            let step = decode_escape(bytes, &mut i, out);
            match step {
                Ok(()) => {
                    proof {
                        lemma_escape_end(s, at as int);
                        assert(before + scan(s, at as int, close).0 =~= out@ + scan(s, i as int, close).0);
                    }
                },
                Err(e) => {
                    assert(out0 + whole.0 =~= out@);
                    *pos = i;
                    return Err(e);
                },
            }
        } else {
            assert(out@.push(b) + scan(s, i + 1, close).0 =~= out@ + scan(s, i as int, close).0);
            out.push(b);
            i = i + 1;
        }
    }
    assert(out0 + whole.0 =~= out@);
    *pos = i;
    match close {
        Some(d) => Err(UnescapeError::missing_close(d)),
        None => {
            if first < bytes.len() {
                Ok(bytes.len() - 1)
            } else {
                Ok(0)
            }
        },
    }
}

/// What decoding all of `s` gives: the bytes, or the first invalid escape's kind, its
/// offset and where its bytes end.
pub open spec fn unescaped(s: Seq<u8>) -> Result<Seq<u8>, (Fault, int, int)> {
    match scan(s, 0, None).1 {
        ScanEnd::Invalid { kind, start, end } => Err((kind, start, end)),
        _ => Ok(scan(s, 0, None).0),
    }
}

/// Without a delimiter a scan ends at the end of the input or at an invalid escape.
pub proof fn lemma_scan_without_close(s: Seq<u8>, i: int)
    ensures
        scan(s, i, None).1 is Exhausted || scan(s, i, None).1 is Invalid,
    decreases s.len() - i,
{
    if 0 <= i < s.len() {
        lemma_escape_end(s, i);
        if s[i] == BACKSLASH {
            if let EscapeOutcome::Decoded { end, .. } = escape_outcome(s, i) {
                lemma_scan_without_close(s, end);
            }
        } else {
            lemma_scan_without_close(s, i + 1);
        }
    }
}

/// Decodes all of `bytes` into a new vector; fails on the first invalid escape.
pub fn unescape_bytes(bytes: &[u8]) -> (r: Result<Vec<u8>, UnescapeError>)
    ensures
        match unescaped(bytes@) {
            Ok(w) => r is Ok && r->Ok_0@ == w,
            Err((kind, start, end)) => r is Err && is_invalid_backslash(
                r->Err_0,
                kind,
                start,
                bytes@.subrange(start, end),
            ),
        },
{
    proof {
        lemma_scan_without_close(bytes@, 0);
    }
    let mut out: Vec<u8> = Vec::new();
    let mut pos: usize = 0;
    match unescape_iter(bytes, &mut pos, &mut out, None) {
        Ok(_) => {
            assert(out@ =~= scan(bytes@, 0, None).0);
            Ok(out)
        },
        Err(e) => Err(e),
    }
}

} // verus!
