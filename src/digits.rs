//! Digit alphabets, runs of digits and their numeric values.
use vstd::arithmetic::power::pow;
use vstd::prelude::*;

verus! {

/// True when `b` is one of the ASCII digits `0` to `7`.
pub open spec fn is_octal_digit(b: u8) -> bool {
    0x30 <= b <= 0x37
}

/// True when `b` is one of the ASCII digits `0` to `9`.
pub open spec fn is_decimal_digit(b: u8) -> bool {
    0x30 <= b <= 0x39
}

/// True when `b` is an ASCII hex digit: `0`-`9`, `A`-`F` or `a`-`f`.
pub open spec fn is_hex_digit(b: u8) -> bool {
    is_decimal_digit(b) || (0x41 <= b <= 0x46) || (0x61 <= b <= 0x66)
}

/// True when `b` is a digit of the given radix (8, or 16 for any other value).
pub open spec fn is_digit_in(b: u8, radix: nat) -> bool {
    if radix == 8 {
        is_octal_digit(b)
    } else {
        is_hex_digit(b)
    }
}

/// The numeric value of a hex digit (and so of a decimal or octal one).
pub open spec fn digit_value(b: u8) -> nat {
    if is_decimal_digit(b) {
        (b - 0x30) as nat
    } else if 0x41 <= b <= 0x46 {
        (b - 0x37) as nat
    } else if 0x61 <= b <= 0x66 {
        (b - 0x57) as nat
    } else {
        0
    }
}

/// True when every byte of `d` is a digit of `radix`.
pub open spec fn all_digits_in(d: Seq<u8>, radix: nat) -> bool {
    forall|k: int| 0 <= k < d.len() ==> is_digit_in(#[trigger] d[k], radix)
}

/// The number that the digits `d` spell in base `radix`, most significant first.
pub open spec fn value_of(d: Seq<u8>, radix: nat) -> nat
    decreases d.len(),
{
    if d.len() == 0 {
        0
    } else {
        value_of(d.drop_last(), radix) * radix + digit_value(d.last())
    }
}

/// How many digits of `radix` stand in `s` from index `i` on, counting at most `max`.
pub open spec fn run_len(s: Seq<u8>, i: int, max: nat, radix: nat) -> nat
    decreases max,
{
    if max == 0 || i < 0 || i >= s.len() || !is_digit_in(s[i], radix) {
        0
    } else {
        1 + run_len(s, i + 1, (max - 1) as nat, radix)
    }
}

/// A run covers digits only, and never more than `max` of them or than `s` holds.
pub proof fn lemma_run_len_bounds(s: Seq<u8>, i: int, max: nat, radix: nat)
    requires
        0 <= i <= s.len(),
    ensures
        run_len(s, i, max, radix) <= max,
        i + run_len(s, i, max, radix) <= s.len(),
        all_digits_in(s.subrange(i, i + run_len(s, i, max, radix)), radix),
    decreases max,
{
    let n = run_len(s, i, max, radix);
    if n > 0 {
        lemma_run_len_bounds(s, i + 1, (max - 1) as nat, radix);
        assert forall|k: int| 0 <= k < n implies is_digit_in(
            #[trigger] s.subrange(i, i + n)[k],
            radix,
        ) by {
            if k > 0 {
                assert(s.subrange(i, i + n)[k] == s.subrange(i + 1, i + n)[k - 1]);
            }
        }
    }
}

/// A digit of `radix` is worth less than `radix`.
pub proof fn lemma_digit_below(b: u8, radix: nat)
    requires
        radix == 8 || radix == 16,
        is_digit_in(b, radix),
    ensures
        digit_value(b) < radix,
{
}

/// `n` digits of `radix` spell a number below `radix` to the power `n`.
pub proof fn lemma_value_below(d: Seq<u8>, radix: nat)
    requires
        radix == 8 || radix == 16,
        all_digits_in(d, radix),
    ensures
        value_of(d, radix) < pow(radix as int, d.len()),
    decreases d.len(),
{
    reveal(pow);
    if d.len() > 0 {
        let front = d.drop_last();
        assert forall|k: int| 0 <= k < front.len() implies is_digit_in(
            #[trigger] front[k],
            radix,
        ) by {
            assert(front[k] == d[k]);
        }
        lemma_value_below(front, radix);
        lemma_digit_below(d.last(), radix);
        let v = value_of(front, radix);
        let p = pow(radix as int, front.len());
        let g = digit_value(d.last());
        assert(v * radix + g < p * radix) by (nonlinear_arith)
            requires
                v < p,
                g < radix,
        ;
        assert(pow(radix as int, d.len()) == radix * pow(radix as int, front.len()));
    }
}

/// A longer run of digits is worth at least as much as its prefix.
pub proof fn lemma_value_grows(d: Seq<u8>, n: int, radix: nat)
    requires
        0 <= n <= d.len(),
        radix >= 1,
    ensures
        value_of(d.subrange(0, n), radix) <= value_of(d, radix),
    decreases d.len() - n,
{
    if n < d.len() {
        lemma_value_grows(d, n + 1, radix);
        let a = d.subrange(0, n);
        let b = d.subrange(0, n + 1);
        assert(b.drop_last() =~= a);
        let v = value_of(a, radix);
        assert(v <= v * radix + digit_value(b.last())) by (nonlinear_arith)
            requires
                radix >= 1,
                v >= 0,
        ;
    } else {
        assert(d.subrange(0, n) =~= d);
    }
}

/// Tells whether `b` is a digit of `radix` (8 or 16).
pub fn is_digit(b: u8, radix: u32) -> (r: bool)
    ensures
        r == is_digit_in(b, radix as nat),
{
    if radix == 8 {
        0x30 <= b && b <= 0x37
    } else {
        (0x30 <= b && b <= 0x39) || (0x41 <= b && b <= 0x46) || (0x61 <= b && b <= 0x66)
    }
}

/// Counts the digits of `radix` that stand in `bytes` from `from` on, at most `max`:
/// each byte is looked at, and counted only if it is such a digit.
pub fn digit_run(bytes: &[u8], from: usize, max: usize, radix: u32) -> (n: usize)
    requires
        from <= bytes@.len(),
    ensures
        n == run_len(bytes@, from as int, max as nat, radix as nat),
        from + n <= bytes@.len(),
        n <= max,
{
    let mut n: usize = 0;
    while n < max && n < bytes.len() - from && is_digit(bytes[from + n], radix)
        invariant
            n <= max,
            from + n <= bytes@.len(),
            run_len(bytes@, from as int, max as nat, radix as nat) == n + run_len(
                bytes@,
                from + n,
                (max - n) as nat,
                radix as nat,
            ),
        decreases max - n,
    {
        n = n + 1;
    }
    n
}

/// The value of the digits `bytes[from..to]` in base `radix`, where it fits in a `u32`.
pub fn digits_value(bytes: &[u8], from: usize, to: usize, radix: u32) -> (v: u32)
    requires
        from <= to <= bytes@.len(),
        radix == 8 || radix == 16,
        all_digits_in(bytes@.subrange(from as int, to as int), radix as nat),
        pow(radix as int, (to - from) as nat) <= 0x1_0000_0000,
    ensures
        v == value_of(bytes@.subrange(from as int, to as int), radix as nat),
{
    let mut v: u32 = 0;
    let mut k: usize = from;
    while k < to
        invariant
            from <= k <= to <= bytes@.len(),
            radix == 8 || radix == 16,
            all_digits_in(bytes@.subrange(from as int, to as int), radix as nat),
            pow(radix as int, (to - from) as nat) <= 0x1_0000_0000,
            v == value_of(bytes@.subrange(from as int, k as int), radix as nat),
        decreases to - k,
    {
        let ghost next = bytes@.subrange(from as int, k + 1);
        proof {
            assert(next.drop_last() =~= bytes@.subrange(from as int, k as int));
            assert(next.last() == bytes@.subrange(from as int, to as int)[k - from]);
            assert forall|j: int| 0 <= j < next.len() implies is_digit_in(
                #[trigger] next[j],
                radix as nat,
            ) by {
                assert(next[j] == bytes@.subrange(from as int, to as int)[j]);
            }
            lemma_value_below(next, radix as nat);
            vstd::arithmetic::power::lemma_pow_increases(
                radix as nat,
                next.len(),
                (to - from) as nat,
            );
        }
        let b = bytes[k];
        let g: u32 = if b <= 0x39 {
            (b - 0x30) as u32
        } else if b <= 0x46 {
            (b - 0x37) as u32
        } else {
            (b - 0x57) as u32
        };
        v = v * radix + g;
        k = k + 1;
    }
    v
}

} // verus!
