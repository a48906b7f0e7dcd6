//! Shared bitwise facts, proved once and instantiated wherever masks
//! and packed words are manipulated.

use vstd::prelude::*;

verus! {

/// Mask algebra over 64-bit words: units, subset reasoning through
/// `x & !y == 0`, and the interplay of or, xor and the low nibble.
#[verifier::rlimit(100)]
pub proof fn lemma_mask64(a: u64, b: u64, c: u64)
    by (bit_vector)
    ensures
        a & 0 == 0,
        a | 0 == a,
        0u64 & a == 0,
        0u64 << b == 0,
        0u64 >> b == 0,
        0u64 & !a == 0,
        a & !a == 0,
        a | b == b | a,
        a & b == b & a,
        a | (b | c) == (a | b) | c,
        a & 0xf <= 0xf,
        a <= 0xf ==> a & 0xf == a,
        a << 0u64 == a,
        a & !b == 0 ==> (a | b == b && b | a == b && a & b == a && b ^ a == b & !a),
        a & !b != 0 ==> (b | a) > b,
        a != 0 && a & b == 0 ==> ((b | a) > b && a & !b != 0),
        (a | b) & !c == 0 ==> (a & !c == 0 && b & !c == 0),
        a & !c == 0 && b & !c == 0 ==> (a | b) & !c == 0,
        a & !b == 0 && b & !a == 0 ==> a == b,
        a & !b == 0 ==> (a ^ b) & !b == 0,
        (a & !b) & b == 0,
        a & !(a | b) == 0,
        b & !(a | b) == 0,
        a & !b == 0 ==> a & b == a,
        c << 60u64 == 0 && a <= 0xf ==> (a | c) & 0xf == a,
{
}

/// The same toolbox over 128-bit words, with the bounds the packed
/// code layout needs.
#[verifier::rlimit(100)]
pub proof fn lemma_mask128(a: u128, b: u128, c: u128, s: u128)
    by (bit_vector)
    ensures
        a | 0 == a,
        0u128 & a == 0,
        0u128 << s == 0,
        0u128 >> s == 0,
        (a & 0xf) <= 15,
        a | b == b | a,
        a | (b | c) == (a | b) | c,
{
}

/// The field mask of a small width is positive and fits twelve bits.
pub proof fn lemma_small_mask128(s: u128)
    by (bit_vector)
    requires
        s <= 12,
    ensures
        1u128 << s >= 1,
        ((1u128 << s) - 1) as u128 <= 0xfff,
{
}

/// A length nibble below 16 does not disturb a word with nothing in
/// its low four bits.
pub proof fn lemma_nibble_or128(a: u128, c: u128)
    by (bit_vector)
    requires
        a < 16,
        c << 124u128 == 0,
    ensures
        (a | c) & 0xf == a,
{
}

/// A length nibble stays below any cut at bit 4 or higher.
pub proof fn lemma_nibble_high128(a: u128, b: u128, s: u128)
    by (bit_vector)
    requires
        a < 16,
        b >> s == 0,
        4 <= s < 128,
    ensures
        (a | b) >> s == 0,
{
}

/// Reads at bit 4 or higher do not see the length nibble.
pub proof fn lemma_nibble_shift128(a: u128, b: u128, c: u128)
    by (bit_vector)
    requires
        a < 16,
        4 <= c < 128,
    ensures
        (a | b) >> c == b >> c,
{
}

/// A value below a bound that fits `s` bits fits `s` bits itself.
pub proof fn lemma_fit128(a: u128, b: u128, s: u128)
    by (bit_vector)
    requires
        a < b,
        b <= 1u128 << s,
    ensures
        a <= ((1u128 << s) - 1) as u128,
{
}

} // verus!
