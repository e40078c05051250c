//! Scores as fixed-point numbers.
//!
//! A score is a `u64` that counts millionths: `SCALE` stands for one. Sparse
//! weights, distances, similarities and fused scores are all held this way,
//! so that every formula is exact integer arithmetic with a stated rounding
//! (towards zero).

use vstd::prelude::*;
use vstd::arithmetic::power2::{
    lemma_pow2_pos, lemma_pow2_strictly_increases, lemma_pow2_unfold, pow2,
};

verus! {

/// The fixed-point representation of one.
pub const SCALE: u64 = 1_000_000;

/// Similarity of a hit at `distance`: one divided by one plus the distance.
pub open spec fn spec_similarity(distance: int) -> int {
    (SCALE * SCALE) / (SCALE + distance)
}

/// Min-max normalisation of `score` within `lo..=hi`; zero where the range
/// is a single point.
pub open spec fn spec_normalize(score: int, lo: int, hi: int) -> int {
    if hi <= lo {
        0
    } else {
        (score - lo) * SCALE / (hi - lo)
    }
}

/// The weighted sum `alpha * lexical + (1 - alpha) * semantic`.
pub open spec fn spec_blend(alpha: int, lexical: int, semantic: int) -> int {
    (alpha * lexical + (SCALE - alpha) * semantic) / (SCALE as int)
}

/// A similarity is positive and at most one, it is one at distance zero, and
/// a larger distance never gives a larger similarity.
pub proof fn lemma_similarity(d1: int, d2: int)
    requires
        0 <= d1 <= d2,
    ensures
        spec_similarity(0) == SCALE,
        0 <= spec_similarity(d2) <= spec_similarity(d1) <= SCALE,
        d1 <= SCALE * SCALE - SCALE ==> spec_similarity(d1) >= 1,
{
    let p: int = SCALE * SCALE;
    assert(p == 1_000_000_000_000);
    assert(p / (SCALE + 0) == SCALE);
    vstd::arithmetic::div_mod::lemma_div_is_ordered_by_denominator(p, SCALE + d1, SCALE + d2);
    vstd::arithmetic::div_mod::lemma_div_is_ordered_by_denominator(p, SCALE as int, SCALE + d1);
    vstd::arithmetic::div_mod::lemma_div_pos_is_pos(p, SCALE + d2);
    if d1 <= p - SCALE {
        vstd::arithmetic::div_mod::lemma_div_is_ordered_by_denominator(p, SCALE + d1, p);
        assert(p / p == 1);
    }
}

/// A normalised score lies between zero and one, it is zero at the bottom of
/// the range and one at its top, and it keeps the order of the scores.
pub proof fn lemma_normalize(s1: int, s2: int, lo: int, hi: int)
    requires
        lo <= s1 <= s2 <= hi,
    ensures
        0 <= spec_normalize(s1, lo, hi) <= spec_normalize(s2, lo, hi) <= SCALE,
        spec_normalize(lo, lo, hi) == 0,
        lo < hi ==> spec_normalize(hi, lo, hi) == SCALE,
{
    if lo < hi {
        let d = hi - lo;
        assert(0 <= (s1 - lo) * SCALE <= (s2 - lo) * SCALE <= d * SCALE) by (nonlinear_arith)
            requires
                lo <= s1 <= s2 <= hi,
                d == hi - lo,
        ;
        vstd::arithmetic::div_mod::lemma_div_is_ordered((s1 - lo) * SCALE, (s2 - lo) * SCALE, d);
        vstd::arithmetic::div_mod::lemma_div_is_ordered((s2 - lo) * SCALE, d * SCALE, d);
        vstd::arithmetic::div_mod::lemma_div_pos_is_pos((s1 - lo) * SCALE, d);
        vstd::arithmetic::div_mod::lemma_div_multiples_vanish(SCALE as int, d);
        assert(d * SCALE == SCALE * d) by (nonlinear_arith);
        assert((lo - lo) * SCALE == 0);
    }
}

/// A blend lies between its two parts; with `alpha` one it is the lexical
/// part, with `alpha` zero the semantic part.
pub proof fn lemma_blend(alpha: int, lexical: int, semantic: int)
    requires
        0 <= alpha <= SCALE,
        0 <= lexical,
        0 <= semantic,
    ensures
        spec_blend(SCALE as int, lexical, semantic) == lexical,
        spec_blend(0, lexical, semantic) == semantic,
        lexical <= semantic ==> lexical <= spec_blend(alpha, lexical, semantic) <= semantic,
        semantic <= lexical ==> semantic <= spec_blend(alpha, lexical, semantic) <= lexical,
{
    let s = SCALE as int;
    assert((s * lexical + (s - s) * semantic) == lexical * s) by (nonlinear_arith);
    vstd::arithmetic::div_mod::lemma_div_multiples_vanish(lexical, s);
    assert((0 * lexical + (s - 0) * semantic) == semantic * s) by (nonlinear_arith);
    vstd::arithmetic::div_mod::lemma_div_multiples_vanish(semantic, s);
    let num = alpha * lexical + (s - alpha) * semantic;
    if lexical <= semantic {
        assert(lexical * s <= num <= semantic * s) by (nonlinear_arith)
            requires
                0 <= alpha <= s,
                0 <= lexical <= semantic,
                num == alpha * lexical + (s - alpha) * semantic,
        ;
        vstd::arithmetic::div_mod::lemma_div_is_ordered(lexical * s, num, s);
        vstd::arithmetic::div_mod::lemma_div_is_ordered(num, semantic * s, s);
    }
    if semantic <= lexical {
        assert(semantic * s <= num <= lexical * s) by (nonlinear_arith)
            requires
                0 <= alpha <= s,
                0 <= semantic <= lexical,
                num == alpha * lexical + (s - alpha) * semantic,
        ;
        vstd::arithmetic::div_mod::lemma_div_is_ordered(semantic * s, num, s);
        vstd::arithmetic::div_mod::lemma_div_is_ordered(num, lexical * s, s);
    }
}

/// Turns a distance into a similarity: `1 / (1 + distance)`.
pub fn similarity(distance: u64) -> (r: u64)
    ensures
        r == spec_similarity(distance as int),
        r <= SCALE,
{
    proof {
        lemma_similarity(distance as int, distance as int);
    }
    let whole: u128 = 1_000_000_000_000;
    let below: u128 = 1_000_000u128 + distance as u128;
    (whole / below) as u64
}

/// Normalises `score` within the range `lo..=hi` of all scores.
pub fn normalize(score: u64, lo: u64, hi: u64) -> (r: u64)
    requires
        lo <= score <= hi,
    ensures
        r == spec_normalize(score as int, lo as int, hi as int),
        r <= SCALE,
{
    proof {
        lemma_normalize(score as int, score as int, lo as int, hi as int);
    }
    if hi <= lo {
        0
    } else {
        let above: u128 = (score - lo) as u128;
        assert(above * 1_000_000 <= 0xffff_ffff_ffff_ffff * 1_000_000) by (nonlinear_arith)
            requires
                above <= 0xffff_ffff_ffff_ffff,
        ;
        let r: u128 = above * 1_000_000u128 / ((hi - lo) as u128);
        r as u64
    }
}

/// Blends a lexical and a semantic score with weight `alpha` on the lexical one.
pub fn blend(alpha: u64, lexical: u64, semantic: u64) -> (r: u64)
    requires
        alpha <= SCALE,
    ensures
        r == spec_blend(alpha as int, lexical as int, semantic as int),
{
    proof {
        lemma_blend(alpha as int, lexical as int, semantic as int);
    }
    let a: u128 = alpha as u128;
    let rest: u128 = 1_000_000u128 - a;
    assert(a * (lexical as u128) <= 1_000_000 * 0xffff_ffff_ffff_ffff) by (nonlinear_arith)
        requires
            a <= 1_000_000,
            lexical <= 0xffff_ffff_ffff_ffff,
    ;
    assert(rest * (semantic as u128) <= 1_000_000 * 0xffff_ffff_ffff_ffff) by (nonlinear_arith)
        requires
            rest <= 1_000_000,
            semantic <= 0xffff_ffff_ffff_ffff,
    ;
    let num: u128 = a * (lexical as u128) + rest * (semantic as u128);
    (num / 1_000_000u128) as u64
}

/// The sign bit of a single-precision bit pattern.
pub open spec fn ieee_negative(bits: u32) -> bool {
    bits >= 0x8000_0000
}

/// The biased exponent of a single-precision bit pattern.
pub open spec fn ieee_exponent(bits: u32) -> int {
    (bits as int / 0x80_0000) % 256
}

/// The fraction bits of a single-precision bit pattern.
pub open spec fn ieee_fraction(bits: u32) -> int {
    bits as int % 0x80_0000
}

/// The significand of a finite bit pattern, as an integer.
pub open spec fn ieee_significand(bits: u32) -> int {
    if ieee_exponent(bits) == 0 {
        ieee_fraction(bits)
    } else {
        ieee_fraction(bits) + 0x80_0000
    }
}

/// The power of two that the significand of a finite bit pattern is
/// multiplied by.
pub open spec fn ieee_shift(bits: u32) -> int {
    if ieee_exponent(bits) == 0 {
        -149
    } else {
        ieee_exponent(bits) - 150
    }
}

/// `x` times two to the power `e`, rounded towards zero.
pub open spec fn times_pow2(x: int, e: int) -> int {
    if e >= 0 {
        x * pow2(e as nat)
    } else {
        x / (pow2((-e) as nat) as int)
    }
}

/// The score that a single-precision bit pattern stands for: the number it
/// encodes, in millionths, rounded towards zero; zero for a negative number
/// and for a NaN, the largest score for anything above it.
pub open spec fn spec_from_ieee(bits: u32) -> int {
    if ieee_negative(bits) || (ieee_exponent(bits) == 255 && ieee_fraction(bits) != 0) {
        0
    } else if ieee_exponent(bits) == 255 {
        u64::MAX as int
    } else {
        let exact = times_pow2(ieee_significand(bits) * SCALE, ieee_shift(bits));
        if exact > u64::MAX {
            u64::MAX as int
        } else {
            exact
        }
    }
}

/// Halves `x` as often as `times`.
fn halve(x: u64, times: u32) -> (r: u64)
    ensures
        r == x as int / (pow2(times as nat) as int),
{
    let mut v: u64 = x;
    let mut i: u32 = 0;
    proof {
        vstd::arithmetic::power2::lemma2_to64();
    }
    while i < times
        invariant
            i <= times,
            v == x as int / (pow2(i as nat) as int),
        decreases times - i,
    {
        proof {
            lemma_pow2_pos(i as nat);
            lemma_pow2_unfold((i + 1) as nat);
            vstd::arithmetic::div_mod::lemma_div_denominator(x as int, pow2(i as nat) as int, 2);
            assert(pow2(i as nat) * 2 == pow2((i + 1) as nat));
        }
        v = v / 2;
        i += 1;
    }
    v
}

/// Doubles `x` as often as `times`, up to the largest score.
fn double(x: u64, times: u32) -> (r: u64)
    ensures
        r == if x * pow2(times as nat) > u64::MAX {
            u64::MAX as int
        } else {
            x * pow2(times as nat)
        },
{
    let mut v: u64 = x;
    let mut i: u32 = 0;
    proof {
        vstd::arithmetic::power2::lemma2_to64();
    }
    while i < times
        invariant
            i <= times,
            v == x * pow2(i as nat),
        decreases times - i,
    {
        proof {
            lemma_pow2_unfold((i + 1) as nat);
            assert(x * pow2((i + 1) as nat) == 2 * (x * pow2(i as nat))) by (nonlinear_arith)
                requires
                    pow2((i + 1) as nat) == 2 * pow2(i as nat),
            ;
        }
        if v > 0x7fff_ffff_ffff_ffff {
            proof {
                if i + 1 < times {
                    lemma_pow2_strictly_increases((i + 1) as nat, times as nat);
                }
                assert(x * pow2(times as nat) >= x * pow2((i + 1) as nat)) by (nonlinear_arith)
                    requires
                        pow2(times as nat) >= pow2((i + 1) as nat),
                        x >= 0,
                ;
            }
            return 0xffff_ffff_ffff_ffff;
        }
        v = v * 2;
        i += 1;
    }
    v
}

/// Reads a score from the bit pattern of a single-precision number.
pub fn from_ieee_bits(bits: u32) -> (r: u64)
    ensures
        r == spec_from_ieee(bits),
{
    let exponent: u32 = (bits / 0x80_0000) % 256;
    let fraction: u32 = bits % 0x80_0000;
    if bits >= 0x8000_0000 || (exponent == 255 && fraction != 0) {
        return 0;
    }
    if exponent == 255 {
        return 0xffff_ffff_ffff_ffff;
    }
    let significand: u64 = if exponent == 0 {
        fraction as u64
    } else {
        fraction as u64 + 0x80_0000
    };
    let scaled: u64 = significand * 1_000_000;
    if exponent >= 150 {
        double(scaled, exponent - 150)
    } else if exponent == 0 {
        proof {
            lemma_pow2_pos(149);
            vstd::arithmetic::div_mod::lemma_div_pos_is_pos(scaled as int, pow2(149) as int);
            vstd::arithmetic::div_mod::lemma_div_is_ordered_by_denominator(
                scaled as int,
                1,
                pow2(149) as int,
            );
        }
        halve(scaled, 149)
    } else {
        proof {
            lemma_pow2_pos((150 - exponent) as nat);
            vstd::arithmetic::div_mod::lemma_div_pos_is_pos(
                scaled as int,
                pow2((150 - exponent) as nat) as int,
            );
            vstd::arithmetic::div_mod::lemma_div_is_ordered_by_denominator(
                scaled as int,
                1,
                pow2((150 - exponent) as nat) as int,
            );
        }
        halve(scaled, 150 - exponent)
    }
}

} // verus!
