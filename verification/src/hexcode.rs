//! Lowercase hexadecimal encoding and decoding of 64-bit words.
//!
//! Session identifiers and CSRF tokens travel through HTTP headers as
//! fixed-width lowercase hex. Encoding is proved to be the exact digit
//! expansion of the word, and decoding is proved to be its inverse, which
//! makes the encoding injective: two distinct words never share a hex form.

use vstd::prelude::*;
use vstd::arithmetic::div_mod::{
    lemma_basic_div, lemma_div_denominator, lemma_fundamental_div_mod,
};

verus! {

/// Byte value of the lowercase hex digit for a nibble `n` in `0..16`.
pub open spec fn hex_digit(n: int) -> u8
    recommends
        0 <= n < 16,
{
    if n < 10 {
        (48 + n) as u8
    } else {
        (87 + n) as u8
    }
}

/// Whether `b` is the byte of a lowercase hex digit.
pub open spec fn is_hex_digit(b: u8) -> bool {
    (48 <= b && b <= 57) || (97 <= b && b <= 102)
}

/// Numeric value of a lowercase hex digit byte.
pub open spec fn hex_val(b: u8) -> int
    recommends
        is_hex_digit(b),
{
    if b < 58 {
        b - 48
    } else {
        b - 87
    }
}

/// `16^k` for `k >= 0`, and `1` below zero.
pub open spec fn pow16(k: int) -> int
    decreases k,
{
    if k <= 0 {
        1
    } else {
        16 * pow16(k - 1)
    }
}

/// Nibble `i` of `x`, counting from the most significant (`i` in `0..16`).
pub open spec fn nibble(x: u64, i: int) -> int {
    (x as int / pow16(15 - i)) % 16
}

/// The sixteen lowercase hex digits of `x`, most significant first.
pub open spec fn hex64(x: u64) -> Seq<u8> {
    Seq::new(16, |i: int| hex_digit(nibble(x, i)))
}

/// Integer denoted by a big-endian sequence of hex digit bytes.
pub open spec fn hex_to_int(s: Seq<u8>) -> int
    decreases s.len(),
{
    if s.len() == 0 {
        0
    } else {
        hex_to_int(s.drop_last()) * 16 + hex_val(s.last())
    }
}

proof fn lemma_pow16_concrete()
    ensures
        pow16(15) == 0x1000_0000_0000_0000,
        pow16(16) == 0x1_0000_0000_0000_0000,
{
    reveal_with_fuel(pow16, 17);
}

proof fn lemma_pow16_pos(k: int)
    ensures
        pow16(k) >= 1,
    decreases
        (if k <= 0 { 0int } else { k }),
{
    if k > 0 {
        lemma_pow16_pos(k - 1);
    }
}

/// Every digit the expansion produces is a lowercase hex digit.
pub proof fn lemma_hex64_digits(x: u64)
    ensures
        hex64(x).len() == 16,
        forall|i: int| 0 <= i < 16 ==> is_hex_digit(#[trigger] hex64(x)[i]),
{
    assert forall|i: int| 0 <= i < 16 implies is_hex_digit(#[trigger] hex64(x)[i]) by {
        lemma_pow16_pos(15 - i);
        assert(0 <= nibble(x, i) < 16);
    }
}

/// Decoding inverts encoding digit by digit: the first `k` digits of
/// `hex64(x)` denote `x` shifted right by the remaining digits.
proof fn lemma_hex_prefix(x: u64, k: int)
    requires
        0 <= k <= 16,
    ensures
        hex_to_int(hex64(x).take(k)) == x as int / pow16(16 - k),
    decreases k,
{
    lemma_pow16_pos(16 - k);
    if k == 0 {
        assert(hex64(x).take(0).len() == 0);
        lemma_pow16_concrete();
        lemma_basic_div(x as int, pow16(16));
    } else {
        lemma_hex_prefix(x, k - 1);
        let s = hex64(x).take(k);
        assert(s.drop_last() =~= hex64(x).take(k - 1));
        assert(s.last() == hex_digit(nibble(x, k - 1)));
        lemma_pow16_pos(16 - k);
        lemma_pow16_pos(15 - (k - 1));
        let q = x as int / pow16(16 - k);
        // nibble k-1 is the low hex digit of the shifted value q
        assert(pow16(15 - (k - 1)) == pow16(16 - k));
        assert(0 <= nibble(x, k - 1) < 16);
        assert(hex_val(hex_digit(nibble(x, k - 1))) == nibble(x, k - 1));
        // the previous prefix is q / 16
        lemma_div_denominator(x as int, pow16(16 - k), 16);
        assert(pow16(16 - k) * 16 == pow16(16 - (k - 1)));
        assert(x as int / pow16(16 - (k - 1)) == q / 16);
        lemma_fundamental_div_mod(q, 16);
        assert(hex_to_int(s) == (q / 16) * 16 + q % 16);
        assert(q == 16 * (q / 16) + q % 16);
    }
}

/// Decoding the full expansion of `x` gives back `x`.
pub proof fn lemma_hex_round_trip(x: u64)
    ensures
        hex_to_int(hex64(x)) == x as int,
{
    lemma_hex_prefix(x, 16);
    assert(hex64(x).take(16) =~= hex64(x));
    assert(pow16(0) == 1);
}

/// The hex expansion is injective: equal digit strings mean equal words.
pub proof fn lemma_hex64_injective(x: u64, y: u64)
    requires
        hex64(x) == hex64(y),
    ensures
        x == y,
{
    lemma_hex_round_trip(x);
    lemma_hex_round_trip(y);
}

/// Appends the sixteen lowercase hex digits of `x` to `out`.
pub fn encode_u64(x: u64, out: &mut Vec<u8>)
    ensures
        final(out)@ == old(out)@ + hex64(x),
{
    let ghost prior = out@;
    let mut p: u64 = 0x1000_0000_0000_0000;
    let mut i: usize = 0;
    proof {
        lemma_pow16_concrete();
    }
    while i < 16
        invariant
            0 <= i <= 16,
            i < 16 ==> p as int == pow16(15 - i),
            out@ == prior + hex64(x).take(i as int),
        decreases 16 - i,
    {
        proof {
            lemma_pow16_pos(15 - i as int);
        }
        let d = ((x / p) % 16) as u8;
        let c = if d < 10 { 48 + d } else { 87 + d };
        proof {
            assert(d as int == nibble(x, i as int));
            assert(c == hex_digit(nibble(x, i as int)));
            assert(hex64(x).take(i as int + 1) =~= hex64(x).take(i as int).push(c));
        }
        out.push(c);
        proof {
            if i < 15 {
                assert(pow16(15 - i as int) == 16 * pow16(15 - (i + 1) as int));
                assert(p as int / 16 == pow16(15 - (i + 1) as int));
            }
        }
        p = p / 16;
        i += 1;
    }
    proof {
        assert(hex64(x).take(16) =~= hex64(x));
    }
}

/// Reads sixteen hex digit bytes from `v` starting at `start`; `None` when
/// some byte in that window is not a lowercase hex digit.
pub fn decode_u64(v: &[u8], start: usize) -> (r: Option<u64>)
    requires
        start + 16 <= v@.len(),
    ensures
        match r {
            Some(x) => (forall|j: int|
                start <= j < start + 16 ==> is_hex_digit(#[trigger] v@[j])) && x as int
                == hex_to_int(v@.subrange(start as int, start as int + 16)),
            None => exists|j: int| start <= j < start + 16 && !is_hex_digit(#[trigger] v@[j]),
        },
{
    let ghost w = v@.subrange(start as int, start as int + 16);
    let n: usize = v.len();
    let mut acc: u64 = 0;
    let mut i: usize = 0;
    while i < 16
        invariant
            0 <= i <= 16,
            n == v@.len(),
            start + 16 <= v@.len(),
            w == v@.subrange(start as int, start as int + 16),
            forall|j: int| start <= j < start + i ==> is_hex_digit(#[trigger] v@[j]),
            acc as int == hex_to_int(w.take(i as int)),
            (acc as int) < pow16(i as int),
        decreases 16 - i,
    {
        let b = v[start + i];
        let val: u8 = if 48 <= b && b <= 57 {
            b - 48
        } else if 97 <= b && b <= 102 {
            b - 87
        } else {
            return None;
        };
        proof {
            assert(is_hex_digit(b));
            assert(val as int == hex_val(b));
            lemma_pow16_concrete();
            lemma_pow16_mono(i as int + 1, 16);
            assert(16 * pow16(i as int) == pow16(i as int + 1));
            assert(acc as int * 16 + val < pow16(i as int + 1));
            assert(w.take(i as int + 1).drop_last() =~= w.take(i as int));
            assert(w.take(i as int + 1).last() == v@[start + i as int]);
        }
        acc = acc * 16 + val as u64;
        i += 1;
    }
    proof {
        assert(w.take(16) =~= w);
    }
    Some(acc)
}

proof fn lemma_pow16_mono(a: int, b: int)
    requires
        a <= b,
    ensures
        pow16(a) <= pow16(b),
    decreases
        (if b <= 0 { 0int } else { b }),
{
    if b > 0 && a < b {
        lemma_pow16_mono(a, b - 1);
        lemma_pow16_pos(b - 1);
    }
}

} // verus!
