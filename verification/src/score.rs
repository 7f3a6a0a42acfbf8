//! Similarity scoring over embedding vectors.
//!
//! Embedding components arrive as the bit patterns of 32-bit IEEE-754
//! floats (the persistent form fixed by the byte codec). Verified code does
//! not compute on floating-point values, so each component is decoded by
//! bit manipulation into a fixed-point integer — `SCORE_SCALE` units per
//! 1.0, saturating at ±32.0 — and the cosine similarity is computed in
//! exact integer arithmetic: `dot(a, b) / (‖a‖·‖b‖)`, scaled to
//! `SCORE_SCALE` and clamped to `[-SCORE_SCALE, SCORE_SCALE]`. A pair with
//! a zero norm scores zero, the defined resolution for degenerate vectors.

use vstd::prelude::*;
use vstd::arithmetic::power2::pow2;
use vstd::arithmetic::div_mod::{lemma_div_is_ordered, lemma_div_multiples_vanish};
use vstd::bits::lemma_u32_shr_is_div;

verus! {

/// Fixed-point units per 1.0 of similarity: scores lie in
/// `[-SCORE_SCALE, SCORE_SCALE]`.
pub const SCORE_SCALE: i64 = 0x100000;

/// The largest magnitude a decoded component can take (32.0 in fixed-point
/// units); larger float components saturate here.
pub const COMPONENT_MAX: i64 = 0x2000000;

/// Saturation bound of the dot-product accumulator.
pub const DOT_CAP: i128 = 0x100000000000000000000;

/// The fixed-point value of the float with bit pattern `w`: its magnitude
/// is `1.mantissa · 2^(exponent - 127) · SCORE_SCALE`, truncated toward
/// zero and saturated at [`COMPONENT_MAX`]. Zeros, subnormals, infinities
/// and NaNs all decode to zero.
pub open spec fn fixed_of_bits(w: u32) -> int {
    let m = (w & 0x007f_ffff) as int;
    let e = ((w >> 23) & 0xff) as int;
    let neg = (w >> 31) != 0;
    let sig = m + 0x0080_0000;
    let mag: int = if e == 0xff || e == 0 {
        0
    } else if e >= 132 {
        COMPONENT_MAX as int
    } else if e == 131 {
        sig * 2
    } else if e == 130 {
        sig
    } else {
        sig / pow2((130 - e) as nat) as int
    };
    if neg {
        -mag
    } else {
        mag
    }
}

/// Decodes one float bit pattern to its fixed-point value.
pub fn fixed_component(w: u32) -> (r: i64)
    ensures
        r as int == fixed_of_bits(w),
        -COMPONENT_MAX <= r <= COMPONENT_MAX,
{
    let m: u32 = w & 0x007f_ffff;
    let e: u32 = (w >> 23) & 0xff;
    let neg: bool = (w >> 31) != 0;
    assert((w & 0x007f_ffff) < 0x0080_0000) by (bit_vector);
    assert(((w >> 23) & 0xff) < 0x100) by (bit_vector);
    let sig: u32 = m + 0x0080_0000;
    let mag: i64 = if e == 0xff || e == 0 {
        0
    } else if e >= 132 {
        COMPONENT_MAX
    } else if e == 131 {
        (sig as i64) * 2
    } else if e == 130 {
        sig as i64
    } else {
        let shift: u32 = 130 - e;
        if shift >= 24 {
            proof {
                lemma_u32_shr_is_div(sig, 24);
                vstd::arithmetic::power2::lemma2_to64();
                assert(pow2(24) == 0x1000000);
                assert(sig >> 24 == 0) by (bit_vector)
                    requires
                        sig < 0x1000000,
                ;
                vstd::arithmetic::power2::lemma_pow2_adds(24, (shift - 24) as nat);
                vstd::arithmetic::power2::lemma_pow2_pos((shift - 24) as nat);
                assert(pow2(shift as nat) >= pow2(24)) by (nonlinear_arith)
                    requires
                        pow2(shift as nat) == pow2(24) * pow2((shift - 24) as nat),
                        pow2((shift - 24) as nat) >= 1,
                        pow2(24) > 0,
                ;
                lemma_div_is_ordered_by_denominator_wrap(sig as int, pow2(24) as int, pow2(shift as nat) as int);
            }
            0
        } else {
            proof {
                lemma_u32_shr_is_div(sig, shift);
                assert(sig >> shift <= sig) by (bit_vector);
            }
            (sig >> shift) as i64
        }
    };
    if neg {
        -mag
    } else {
        mag
    }
}

proof fn lemma_div_is_ordered_by_denominator_wrap(x: int, y: int, z: int)
    requires
        0 <= x,
        1 <= y <= z,
        x / y == 0,
    ensures
        x / z == 0,
{
    vstd::arithmetic::div_mod::lemma_div_is_ordered_by_denominator(x, y, z);
    vstd::arithmetic::div_mod::lemma_div_pos_is_pos(x, z);
}

/// Saturates `x` to `[-DOT_CAP, DOT_CAP]`.
pub open spec fn sat_cap(x: int) -> int {
    if x > DOT_CAP as int {
        DOT_CAP as int
    } else if x < -(DOT_CAP as int) {
        -(DOT_CAP as int)
    } else {
        x
    }
}

/// The saturating fixed-point dot product of the first `i` component pairs.
pub open spec fn dot_upto(a: Seq<u32>, b: Seq<u32>, i: int) -> int
    decreases i,
{
    if i <= 0 {
        0
    } else {
        sat_cap(dot_upto(a, b, i - 1) + fixed_of_bits(a[i - 1]) * fixed_of_bits(b[i - 1]))
    }
}

/// The smaller of two lengths.
pub open spec fn min_len(a: nat, b: nat) -> nat {
    if a < b {
        a
    } else {
        b
    }
}

/// The fixed-point dot product over the common prefix of the two vectors
/// (surplus components of the longer vector are ignored).
pub open spec fn dot_fixed(a: Seq<u32>, b: Seq<u32>) -> int {
    dot_upto(a, b, min_len(a.len(), b.len()) as int)
}

/// The squared fixed-point norm of a vector.
pub open spec fn norm2_fixed(a: Seq<u32>) -> int {
    dot_upto(a, a, a.len() as int)
}

/// A squared norm is never negative.
pub proof fn lemma_norm2_nonneg(a: Seq<u32>, i: int)
    ensures
        dot_upto(a, a, i) >= 0,
    decreases i,
{
    if i > 0 {
        lemma_norm2_nonneg(a, i - 1);
        let t = fixed_of_bits(a[i - 1]);
        assert(t * t >= 0) by (nonlinear_arith);
    }
}

/// The integer square root: the largest `r` with `r * r <= n`.
pub open spec fn isqrt(n: nat) -> nat
    decreases n,
{
    if n == 0 {
        0
    } else {
        let r = 2 * isqrt(n / 4);
        if (r + 1) * (r + 1) <= n {
            r + 1
        } else {
            r
        }
    }
}

/// `isqrt` is the integer square root.
pub proof fn lemma_isqrt_bounds(n: nat)
    ensures
        isqrt(n) * isqrt(n) <= n,
        n < (isqrt(n) + 1) * (isqrt(n) + 1),
    decreases n,
{
    if n > 0 {
        lemma_isqrt_bounds(n / 4);
        let r0 = isqrt(n / 4);
        let r = 2 * r0;
        assert(4 * (n / 4) + n % 4 == n);
        assert(r * r <= n) by (nonlinear_arith)
            requires
                r == 2 * r0,
                r0 * r0 <= n / 4,
                4 * (n / 4) + n % 4 == n,
                0 <= n % 4,
        ;
        assert(n < (r + 2) * (r + 2)) by (nonlinear_arith)
            requires
                r == 2 * r0,
                n / 4 < (r0 + 1) * (r0 + 1),
                4 * (n / 4) + n % 4 == n,
                n % 4 < 4,
        ;
        if (r + 1) * (r + 1) <= n {
            assert(isqrt(n) == r + 1);
            assert(isqrt(n) * isqrt(n) <= n);
            assert(n < (isqrt(n) + 1) * (isqrt(n) + 1));
        } else {
            assert(isqrt(n) == r);
            assert(isqrt(n) * isqrt(n) <= n);
            assert(n < (isqrt(n) + 1) * (isqrt(n) + 1));
        }
    } else {
        assert(isqrt(n) == 0);
        assert(isqrt(n) * isqrt(n) <= n) by (nonlinear_arith)
            requires
                isqrt(n) == 0,
                n == 0,
        ;
        assert(n < (isqrt(n) + 1) * (isqrt(n) + 1)) by (nonlinear_arith)
            requires
                isqrt(n) == 0,
                n == 0,
        ;
    }
}

/// Computes [`isqrt`].
fn isqrt_exec(n: u128) -> (r: u128)
    requires
        n <= 0x10000000000000000000000000000,
    ensures
        r as nat == isqrt(n as nat),
        r <= 0x100000000000000,
    decreases n,
{
    if n == 0 {
        0
    } else {
        let r0 = isqrt_exec(n / 4);
        let r: u128 = 2 * r0;
        proof {
            lemma_isqrt_bounds(n as nat);
            lemma_isqrt_bounds((n / 4) as nat);
            lemma_div_is_ordered(n as int, 0x10000000000000000000000000000, 4);
            assert(r0 * r0 <= n / 4);
            assert(r0 <= 0x80000000000000) by (nonlinear_arith)
                requires
                    r0 * r0 <= 0x4000000000000000000000000000,
                    r0 >= 0,
            ;
            assert((r + 1) * (r + 1) <= 0x100000000000000000000000000000000 - 1)
                by (nonlinear_arith)
                requires
                    0 <= r <= 0x100000000000000,
            ;
        }
        let res: u128 = if (r + 1) * (r + 1) <= n {
            r + 1
        } else {
            r
        };
        proof {
            assert(res as nat == isqrt(n as nat));
            assert(res * res <= n);
            assert(res <= 0x100000000000000) by (nonlinear_arith)
                requires
                    res * res <= 0x10000000000000000000000000000,
                    res >= 0,
            ;
        }
        res
    }
}

/// The similarity score of two vectors of float bit patterns: the scaled,
/// clamped fixed-point cosine similarity; zero when either norm is zero.
pub open spec fn score_of(a: Seq<u32>, b: Seq<u32>) -> int {
    let d = dot_fixed(a, b);
    let den = isqrt(norm2_fixed(a) as nat) * isqrt(norm2_fixed(b) as nat);
    if den == 0 {
        0
    } else if d >= 0 {
        let r = (d * SCORE_SCALE) / (den as int);
        if r > SCORE_SCALE as int {
            SCORE_SCALE as int
        } else {
            r
        }
    } else {
        let r = ((-d) * SCORE_SCALE) / (den as int);
        if r > SCORE_SCALE as int {
            -(SCORE_SCALE as int)
        } else {
            -r
        }
    }
}

/// The saturating fixed-point dot product of two vectors of float bits.
fn dot_exec(a: &Vec<u32>, b: &Vec<u32>) -> (r: i128)
    ensures
        r as int == dot_fixed(a@, b@),
        -DOT_CAP <= r <= DOT_CAP,
{
    let n: usize = if a.len() < b.len() {
        a.len()
    } else {
        b.len()
    };
    let mut acc: i128 = 0;
    for i in 0..n
        invariant
            n == min_len(a@.len(), b@.len()),
            acc as int == dot_upto(a@, b@, i as int),
            -DOT_CAP <= acc <= DOT_CAP,
    {
        let x: i128 = fixed_component(a[i]) as i128;
        let y: i128 = fixed_component(b[i]) as i128;
        proof {
            assert(x * y <= 0x2000000 * 0x2000000 && x * y >= -(0x2000000 * 0x2000000))
                by (nonlinear_arith)
                requires
                    -0x2000000 <= x <= 0x2000000,
                    -0x2000000 <= y <= 0x2000000,
            ;
        }
        let t: i128 = x * y;
        let s: i128 = acc + t;
        acc = if s > DOT_CAP {
            DOT_CAP
        } else if s < -DOT_CAP {
            -DOT_CAP
        } else {
            s
        };
    }
    acc
}

/// The cosine similarity of two embedding vectors given as f32 bit
/// patterns, in fixed-point units of [`SCORE_SCALE`] per 1.0: exactly
/// [`score_of`], which is `dot(a, b) / (‖a‖·‖b‖)` over the fixed-point
/// component values, clamped to `[-SCORE_SCALE, SCORE_SCALE]`, and zero
/// when either vector's norm is zero.
pub fn cosine_similarity(a: &Vec<u32>, b: &Vec<u32>) -> (r: i64)
    ensures
        r as int == score_of(a@, b@),
        -SCORE_SCALE <= r <= SCORE_SCALE,
{
    let d: i128 = dot_exec(a, b);
    let na: i128 = dot_exec(a, a);
    let nb: i128 = dot_exec(b, b);
    proof {
        lemma_norm2_nonneg(a@, a@.len() as int);
        lemma_norm2_nonneg(b@, b@.len() as int);
    }
    let qa: u128 = isqrt_exec(na as u128);
    let qb: u128 = isqrt_exec(nb as u128);
    proof {
        assert(qa * qb <= 0x100000000000000 * 0x100000000000000) by (nonlinear_arith)
            requires
                0 <= qa <= 0x100000000000000,
                0 <= qb <= 0x100000000000000,
        ;
    }
    let den: u128 = qa * qb;
    if den == 0 {
        return 0i64;
    }
    let mag: u128 = if d >= 0 {
        d as u128
    } else {
        (-d) as u128
    };
    proof {
        assert(mag * (SCORE_SCALE as u128) <= 0x100000000000000000000 * 0x100000)
            by (nonlinear_arith)
            requires
                mag <= 0x100000000000000000000,
        ;
    }
    let num: u128 = mag * (SCORE_SCALE as u128);
    let raw: u128 = num / den;
    let clamped: i64 = if raw > SCORE_SCALE as u128 {
        SCORE_SCALE
    } else {
        raw as i64
    };
    if d >= 0 {
        clamped
    } else {
        -clamped
    }
}

// ---------------------------------------------------------------------------
// Laws of the similarity score
// ---------------------------------------------------------------------------
/// SYMMETRY LAW: similarity does not depend on the order of its arguments.
pub proof fn lemma_similarity_symmetric(a: Seq<u32>, b: Seq<u32>)
    ensures
        score_of(a, b) == score_of(b, a),
{
    lemma_dot_symmetric(a, b, min_len(a.len(), b.len()) as int);
}

proof fn lemma_dot_symmetric(a: Seq<u32>, b: Seq<u32>, i: int)
    ensures
        dot_upto(a, b, i) == dot_upto(b, a, i),
    decreases i,
{
    if i > 0 {
        lemma_dot_symmetric(a, b, i - 1);
        assert(fixed_of_bits(a[i - 1]) * fixed_of_bits(b[i - 1]) == fixed_of_bits(b[i - 1])
            * fixed_of_bits(a[i - 1])) by (nonlinear_arith);
    }
}

/// IDENTITY LAW: a vector with a non-zero norm has similarity exactly 1.0
/// (that is, [`SCORE_SCALE`]) with itself.
pub proof fn lemma_similarity_identity(v: Seq<u32>)
    requires
        norm2_fixed(v) > 0,
    ensures
        score_of(v, v) == SCORE_SCALE as int,
{
    let n2 = norm2_fixed(v);
    let q = isqrt(n2 as nat);
    lemma_isqrt_bounds(n2 as nat);
    assert(q > 0) by (nonlinear_arith)
        requires
            (n2 as nat) < (q + 1) * (q + 1),
            n2 > 0,
    ;
    let den = (q * q) as int;
    assert(dot_fixed(v, v) == n2);
    assert(den <= n2);
    assert(den > 0) by (nonlinear_arith)
        requires
            q > 0,
            den == q * q,
    ;
    let d = n2;
    assert(d * SCORE_SCALE >= den * SCORE_SCALE) by (nonlinear_arith)
        requires
            d >= den,
            SCORE_SCALE > 0,
    ;
    lemma_div_is_ordered(den * SCORE_SCALE, d * SCORE_SCALE, den);
    lemma_div_multiples_vanish(SCORE_SCALE as int, den);
    assert((den * SCORE_SCALE) / den == SCORE_SCALE as int) by {
        assert(den * SCORE_SCALE == SCORE_SCALE * den) by (nonlinear_arith);
    }
    assert((d * SCORE_SCALE) / den >= SCORE_SCALE as int);
}

/// BOUND LAW: every similarity score lies within `[-1.0, 1.0]`, that is,
/// within `[-SCORE_SCALE, SCORE_SCALE]`.
pub proof fn lemma_similarity_bounded(a: Seq<u32>, b: Seq<u32>)
    ensures
        -(SCORE_SCALE as int) <= score_of(a, b) <= SCORE_SCALE as int,
{
    let d = dot_fixed(a, b);
    let den = (isqrt(norm2_fixed(a) as nat) * isqrt(norm2_fixed(b) as nat)) as int;
    if den != 0 {
        assert(den > 0);
        if d >= 0 {
            assert(d * SCORE_SCALE >= 0) by (nonlinear_arith)
                requires
                    d >= 0,
            ;
            vstd::arithmetic::div_mod::lemma_div_pos_is_pos(d * SCORE_SCALE, den);
        } else {
            assert((-d) * SCORE_SCALE >= 0) by (nonlinear_arith)
                requires
                    d < 0,
            ;
            vstd::arithmetic::div_mod::lemma_div_pos_is_pos((-d) * SCORE_SCALE, den);
        }
    }
}

} // verus!
