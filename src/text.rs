//! UTF-8 output and the two renderings of raw bytes used in error values.
use vstd::prelude::*;
use vstd::string::*;
use vstd::utf8::*;

verus! {

/// What `String::from_utf8_lossy` makes of a byte sequence.
pub uninterp spec fn lossy_text(b: Seq<u8>) -> Seq<char>;

/// Relies on `String::from_utf8_lossy`: its characters depend on the bytes alone,
/// and well-formed UTF-8 comes back as the characters it encodes.
#[verifier::external_body]
fn lossy_string(b: &[u8]) -> (r: String)
    ensures
        r@ == lossy_text(b@),
        valid_utf8(b@) ==> r@ == decode_utf8(b@),
{
    String::from_utf8_lossy(b).into_owned()
}

/// Relies on `String::from_utf8`: it accepts exactly the well-formed UTF-8
/// sequences, and the string holds the characters they encode.
#[verifier::external_body]
pub(crate) fn string_from_utf8(b: Vec<u8>) -> (r: Option<String>)
    ensures
        r is Some <==> valid_utf8(b@),
        r is Some ==> r->Some_0@ == decode_utf8(b@),
{
    String::from_utf8(b).ok()
}

/// True when `v` is a Unicode scalar value: at most `0x10FFFF` and outside the surrogates.
pub open spec fn is_codepoint(v: nat) -> bool {
    v <= 0x10FFFF && !(0xD800 <= v <= 0xDFFF)
}

/// Appends the UTF-8 encoding of the scalar value `v`.
pub fn push_scalar(out: &mut Vec<u8>, v: u32)
    requires
        is_scalar(v),
    ensures
        final(out)@ == old(out)@ + encode_scalar(v),
{
    if v <= 0x7F {
        out.push((v & 0x7F) as u8);
    } else if v <= 0x7FF {
        out.push(0xC0 | ((v >> 6) & 0x1F) as u8);
        out.push(0x80 | (v & 0x3F) as u8);
    } else if v <= 0xFFFF {
        out.push(0xE0 | ((v >> 12) & 0x0F) as u8);
        out.push(0x80 | ((v >> 6) & 0x3F) as u8);
        out.push(0x80 | (v & 0x3F) as u8);
    } else {
        out.push(0xF0 | ((v >> 18) & 0x7) as u8);
        out.push(0x80 | ((v >> 12) & 0x3F) as u8);
        out.push(0x80 | ((v >> 6) & 0x3F) as u8);
        out.push(0x80 | (v & 0x3F) as u8);
    }
    assert(final(out)@ =~= old(out)@ + encode_scalar(v));
}

/// Encoding one more character appends its encoding.
pub proof fn lemma_encode_push(cs: Seq<char>, c: char)
    ensures
        encode_utf8(cs.push(c)) == encode_utf8(cs) + encode_scalar(c as u32),
    decreases cs.len(),
{
    if cs.len() == 0 {
        assert(cs.push(c).drop_first() =~= Seq::<char>::empty());
        assert(cs.push(c)[0] == c);
        assert(encode_utf8(Seq::<char>::empty()) =~= Seq::<u8>::empty());
        assert(encode_utf8(cs) =~= Seq::<u8>::empty());
        assert(encode_utf8(cs.push(c)) =~= encode_scalar(c as u32));
    } else {
        assert(cs.push(c).drop_first() =~= cs.drop_first().push(c));
        lemma_encode_push(cs.drop_first(), c);
        assert(encode_utf8(cs.push(c)) =~= encode_utf8(cs) + encode_scalar(c as u32));
    }
}

/// The upper-case hex digit for `n < 16`.
pub open spec fn upper_hex(n: nat) -> char {
    if n < 10 {
        (0x30 + n) as u8 as char
    } else {
        (0x37 + n) as u8 as char
    }
}

/// A byte as two upper-case hex digits.
pub open spec fn hex_pair(b: u8) -> Seq<char> {
    seq![upper_hex(b as nat / 16), upper_hex(b as nat % 16)]
}

/// The bytes as upper-case hex pairs separated by single spaces.
pub open spec fn hex_text(bs: Seq<u8>) -> Seq<char>
    decreases bs.len(),
{
    if bs.len() == 0 {
        seq![]
    } else if bs.len() == 1 {
        hex_pair(bs[0])
    } else {
        hex_text(bs.drop_last()) + seq![' '] + hex_pair(bs.last())
    }
}

/// The visible stand-in for a character: a control character up to the space, and
/// delete, become their control pictures (`U+2400` on); any other stays.
pub open spec fn picture(c: char) -> char {
    if c as u32 <= 0x20 {
        ((c as u32) + 0x2400) as char
    } else if c as u32 == 0x7F {
        0x247F as char
    } else {
        c
    }
}

/// The bytes decoded as UTF-8, leniently, with control characters made visible.
pub open spec fn display_text(bs: Seq<u8>) -> Seq<char> {
    lossy_text(bs).map_values(|c: char| picture(c))
}

/// Appends the ASCII character `a` to `out`, and to the characters `cs` it encodes.
fn push_ascii(out: &mut Vec<u8>, a: u8, Ghost(cs): Ghost<Seq<char>>) -> (ncs: Ghost<Seq<char>>)
    requires
        a < 0x80,
        old(out)@ == encode_utf8(cs),
    ensures
        ncs@ == cs.push(a as char),
        final(out)@ == encode_utf8(ncs@),
{
    let v = a as u32;
    assert(has_width_1_encoding(v));
    push_scalar(out, v);
    proof {
        lemma_encode_push(cs, a as char);
    }
    Ghost(cs.push(a as char))
}

/// Turns bytes that encode the characters `cs` into a string of them.
fn string_of_encoded(b: Vec<u8>, Ghost(cs): Ghost<Seq<char>>) -> (r: String)
    requires
        b@ == encode_utf8(cs),
    ensures
        r@ == cs,
{
    proof {
        encode_utf8_valid_utf8(cs);
        encode_utf8_decode_utf8(cs);
    }
    match string_from_utf8(b) {
        Some(s) => s,
        None => {
            assert(false);
            String::new()
        },
    }
}

/// Renders bytes as upper-case hex pairs separated by single spaces (`[0x5C, 0x71]` gives `5C 71`).
pub fn pretty_bytes(bs: &[u8]) -> (r: String)
    ensures
        r@ == hex_text(bs@),
{
    let mut out: Vec<u8> = Vec::new();
    let ghost mut cs: Seq<char> = seq![];
    let mut k: usize = 0;
    while k < bs.len()
        invariant
            k <= bs@.len(),
            out@ == encode_utf8(cs),
            cs == hex_text(bs@.subrange(0, k as int)),
        decreases bs@.len() - k,
    {
        let ghost before = bs@.subrange(0, k as int);
        let ghost after = bs@.subrange(0, k + 1);
        proof {
            assert(after.drop_last() =~= before);
        }
        if k > 0 {
            let Ghost(c1) = push_ascii(&mut out, 0x20, Ghost(cs));
            proof { cs = c1; }
        }
        let b = bs[k];
        let hi = b / 16;
        let lo = b % 16;
        let dh: u8 = if hi < 10 { 0x30 + hi } else { 0x37 + hi };
        let dl: u8 = if lo < 10 { 0x30 + lo } else { 0x37 + lo };
        let Ghost(c2) = push_ascii(&mut out, dh, Ghost(cs));
        let Ghost(c3) = push_ascii(&mut out, dl, Ghost(c2));
        proof {
            cs = c3;
            if k == 0 {
                assert(cs =~= hex_text(after));
            } else {
                assert(cs =~= hex_text(after));
            }
        }
        k = k + 1;
    }
    proof {
        assert(bs@.subrange(0, bs@.len() as int) =~= bs@);
    }
    string_of_encoded(out, Ghost(cs))
}

/// Replaces each control character up to the space, and delete, by its control picture.
pub fn show_controls(s: &str) -> (r: String)
    ensures
        r@ == s@.map_values(|c: char| picture(c)),
{
    let n = s.unicode_len();
    let mut out: Vec<u8> = Vec::new();
    let ghost mut cs: Seq<char> = seq![];
    let mut k: usize = 0;
    while k < n
        invariant
            k <= n == s@.len(),
            out@ == encode_utf8(cs),
            cs == s@.subrange(0, k as int).map_values(|c: char| picture(c)),
        decreases n - k,
    {
        let c = s.get_char(k);
        let v = c as u32;
        let w: u32 = if v <= 0x20 {
            v + 0x2400
        } else if v == 0x7F {
            0x247F
        } else {
            v
        };
        proof {
            char_is_scalar(c);
            char_u32_cast(c, v);
        }
        assert(is_scalar(w));
        assert((w as char) == picture(c));
        assert((w as char) as u32 == w);
        push_scalar(&mut out, w);
        proof {
            lemma_encode_push(cs, w as char);
            cs = cs.push(w as char);
            assert(cs =~= s@.subrange(0, k + 1).map_values(|c: char| picture(c)));
        }
        k = k + 1;
    }
    proof {
        assert(s@.subrange(0, n as int) =~= s@);
    }
    string_of_encoded(out, Ghost(cs))
}

/// Renders bytes as text for a message: decoded as UTF-8, with each ill-formed part
/// replaced, and control characters up to the space, and delete, shown as control pictures.
pub fn pretty_string(bs: &[u8]) -> (r: String)
    ensures
        r@ == display_text(bs@),
{
    let s = lossy_string(bs);
    show_controls(s.as_str())
}

} // verus!
