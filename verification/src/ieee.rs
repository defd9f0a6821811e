//! Comparisons of IEEE 754 numbers that are held as their bit patterns.
//!
//! Floating-point values pass through this library as plain integers. What it
//! decides about them (is this a number, which of two is smaller) depends
//! only on the order of the bit patterns, which is what this module states.

use vstd::arithmetic::power2::{lemma_pow2_adds, lemma_pow2_pos, lemma_pow2_strictly_increases, pow2};
use vstd::prelude::*;

verus! {

/// The pattern of the quiet NaN that stands for "no value".
pub const NAN32: u32 = 0x7fc0_0000;

/// A single-precision pattern without its sign bit.
pub open spec fn magnitude32(bits: u32) -> int {
    bits as int % 0x8000_0000
}

/// Whether a single-precision pattern is not a number.
pub open spec fn nan32(bits: u32) -> bool {
    magnitude32(bits) > 0x7f80_0000
}

/// Whether a single-precision pattern is neither infinite nor a NaN.
pub open spec fn finite32(bits: u32) -> bool {
    magnitude32(bits) < 0x7f80_0000
}

/// The rank of a single-precision pattern; both zeros have rank 0.
pub open spec fn rank32(bits: u32) -> int {
    if bits < 0x8000_0000 {
        magnitude32(bits)
    } else {
        -magnitude32(bits)
    }
}

/// `a < b` in single precision: false as soon as one side is a NaN.
pub open spec fn less32(a: u32, b: u32) -> bool {
    !nan32(a) && !nan32(b) && rank32(a) < rank32(b)
}

/// `a <= b` in single precision: false as soon as one side is a NaN.
pub open spec fn at_most32(a: u32, b: u32) -> bool {
    !nan32(a) && !nan32(b) && rank32(a) <= rank32(b)
}

/// A double-precision pattern without its sign bit.
pub open spec fn magnitude64(bits: u64) -> int {
    bits as int % 0x8000_0000_0000_0000
}

/// Whether a double-precision pattern is not a number.
pub open spec fn nan64(bits: u64) -> bool {
    magnitude64(bits) > 0x7ff0_0000_0000_0000
}

/// Whether a double-precision pattern is neither infinite nor a NaN.
pub open spec fn finite64(bits: u64) -> bool {
    magnitude64(bits) < 0x7ff0_0000_0000_0000
}

/// The rank of a double-precision pattern; both zeros have rank 0.
pub open spec fn rank64(bits: u64) -> int {
    if bits < 0x8000_0000_0000_0000 {
        magnitude64(bits)
    } else {
        -magnitude64(bits)
    }
}

/// `a < b` in double precision: false as soon as one side is a NaN.
pub open spec fn less64(a: u64, b: u64) -> bool {
    !nan64(a) && !nan64(b) && rank64(a) < rank64(b)
}

/// `a <= b` in double precision: false as soon as one side is a NaN.
pub open spec fn at_most64(a: u64, b: u64) -> bool {
    !nan64(a) && !nan64(b) && rank64(a) <= rank64(b)
}

/// What a finite pattern of the given magnitude is worth, counted in units of
/// the smallest positive number of its format. `places` is the number of
/// fraction bits.
pub open spec fn scaled_magnitude(magnitude: int, places: nat) -> int {
    let exponent = magnitude / pow2(places) as int;
    let fraction = magnitude % pow2(places) as int;
    if exponent <= 0 {
        fraction
    } else {
        (pow2(places) + fraction) * pow2((exponent - 1) as nat)
    }
}

/// The value of a finite single-precision pattern in units of 2^-149.
pub open spec fn value32(bits: u32) -> int {
    if bits < 0x8000_0000 {
        scaled_magnitude(magnitude32(bits), 23)
    } else {
        -scaled_magnitude(magnitude32(bits), 23)
    }
}

/// The value of a finite double-precision pattern in units of 2^-1074.
pub open spec fn value64(bits: u64) -> int {
    if bits < 0x8000_0000_0000_0000 {
        scaled_magnitude(magnitude64(bits), 52)
    } else {
        -scaled_magnitude(magnitude64(bits), 52)
    }
}

proof fn lemma_scaled_magnitude_increases(a: int, b: int, places: nat)
    requires
        0 <= a < b,
    ensures
        0 <= scaled_magnitude(a, places) < scaled_magnitude(b, places),
{
    let p = pow2(places) as int;
    lemma_pow2_pos(places);
    let (ea, fa) = (a / p, a % p);
    let (eb, fb) = (b / p, b % p);
    assert(a == p * ea + fa && 0 <= fa < p && ea >= 0) by (nonlinear_arith)
        requires
            ea == a / p,
            fa == a % p,
            p > 0,
            a >= 0,
    ;
    assert(b == p * eb + fb && 0 <= fb < p && eb >= 0) by (nonlinear_arith)
        requires
            eb == b / p,
            fb == b % p,
            p > 0,
            b >= 0,
    ;
    assert(ea <= eb) by (nonlinear_arith)
        requires
            a == p * ea + fa,
            b == p * eb + fb,
            a < b,
            0 <= fa,
            fb < p,
            p > 0,
    ;
    if ea == eb {
        assert(fa < fb);
        if ea > 0 {
            let q = pow2((ea - 1) as nat) as int;
            lemma_pow2_pos((ea - 1) as nat);
            assert(0 <= (p + fa) * q < (p + fb) * q) by (nonlinear_arith)
                requires
                    q > 0,
                    p > 0,
                    0 <= fa < fb,
            ;
        }
    } else {
        let qb = pow2((eb - 1) as nat) as int;
        lemma_pow2_pos((eb - 1) as nat);
        assert((p + fb) * qb >= p * qb) by (nonlinear_arith)
            requires
                qb > 0,
                fb >= 0,
        ;
        assert(p * qb >= p) by (nonlinear_arith)
            requires
                qb > 0,
                p > 0,
        ;
        if ea > 0 {
            let qa = pow2((ea - 1) as nat) as int;
            lemma_pow2_pos((ea - 1) as nat);
            lemma_pow2_adds(1, (ea - 1) as nat);
            assert(pow2(1) == 2) by {
                vstd::arithmetic::power2::lemma2_to64();
            }
            assert(2 * qa == pow2(ea as nat));
            if ea < eb - 1 {
                lemma_pow2_strictly_increases(ea as nat, (eb - 1) as nat);
            }
            assert(2 * qa <= qb);
            assert(0 <= (p + fa) * qa < p * qb) by (nonlinear_arith)
                requires
                    0 <= fa < p,
                    2 * qa <= qb,
                    qa > 0,
                    p > 0,
            ;
        }
    }
}

/// Ranks order finite single-precision patterns as the numbers that they
/// stand for.
pub proof fn rank32_follows_value(a: u32, b: u32)
    requires
        finite32(a),
        finite32(b),
    ensures
        rank32(a) < rank32(b) <==> value32(a) < value32(b),
        rank32(a) == rank32(b) <==> value32(a) == value32(b),
        less32(a, b) <==> value32(a) < value32(b),
        at_most32(a, b) <==> value32(a) <= value32(b),
{
    let (ma, mb) = (magnitude32(a), magnitude32(b));
    lemma_scaled_zero(23);
    if ma > 0 {
        lemma_scaled_magnitude_increases(0, ma, 23);
    }
    if mb > 0 {
        lemma_scaled_magnitude_increases(0, mb, 23);
    }
    if ma < mb {
        lemma_scaled_magnitude_increases(ma, mb, 23);
    } else if mb < ma {
        lemma_scaled_magnitude_increases(mb, ma, 23);
    }
}

/// Ranks order finite double-precision patterns as the numbers that they
/// stand for.
pub proof fn rank64_follows_value(a: u64, b: u64)
    requires
        finite64(a),
        finite64(b),
    ensures
        rank64(a) < rank64(b) <==> value64(a) < value64(b),
        rank64(a) == rank64(b) <==> value64(a) == value64(b),
        less64(a, b) <==> value64(a) < value64(b),
        at_most64(a, b) <==> value64(a) <= value64(b),
{
    let (ma, mb) = (magnitude64(a), magnitude64(b));
    lemma_scaled_zero(52);
    if ma > 0 {
        lemma_scaled_magnitude_increases(0, ma, 52);
    }
    if mb > 0 {
        lemma_scaled_magnitude_increases(0, mb, 52);
    }
    if ma < mb {
        lemma_scaled_magnitude_increases(ma, mb, 52);
    } else if mb < ma {
        lemma_scaled_magnitude_increases(mb, ma, 52);
    }
}

proof fn lemma_scaled_zero(places: nat)
    ensures
        scaled_magnitude(0, places) == 0,
{
    let p = pow2(places) as int;
    lemma_pow2_pos(places);
    assert(0int / p == 0 && 0int % p == 0) by (nonlinear_arith)
        requires
            p > 0,
    ;
}

/// Tests whether a single-precision pattern is not a number.
pub fn is_nan32(bits: u32) -> (nan: bool)
    ensures
        nan == nan32(bits),
{
    bits % 0x8000_0000 > 0x7f80_0000
}

/// Tests whether a single-precision pattern is a finite number.
pub fn is_finite32(bits: u32) -> (finite: bool)
    ensures
        finite == finite32(bits),
{
    bits % 0x8000_0000 < 0x7f80_0000
}

fn rank_of32(bits: u32) -> (rank: i64)
    ensures
        rank == rank32(bits),
{
    let magnitude: i64 = (bits % 0x8000_0000) as i64;
    if bits < 0x8000_0000 {
        magnitude
    } else {
        -magnitude
    }
}

/// Compares two single-precision patterns: `a < b`.
pub fn is_less32(a: u32, b: u32) -> (less: bool)
    ensures
        less == less32(a, b),
{
    !is_nan32(a) && !is_nan32(b) && rank_of32(a) < rank_of32(b)
}

/// Compares two single-precision patterns: `a <= b`.
pub fn is_at_most32(a: u32, b: u32) -> (at_most: bool)
    ensures
        at_most == at_most32(a, b),
{
    !is_nan32(a) && !is_nan32(b) && rank_of32(a) <= rank_of32(b)
}

/// Tests whether a double-precision pattern is not a number.
pub fn is_nan64(bits: u64) -> (nan: bool)
    ensures
        nan == nan64(bits),
{
    bits % 0x8000_0000_0000_0000 > 0x7ff0_0000_0000_0000
}

fn rank_of64(bits: u64) -> (rank: i64)
    ensures
        rank == rank64(bits),
{
    let magnitude: i64 = (bits % 0x8000_0000_0000_0000) as i64;
    if bits < 0x8000_0000_0000_0000 {
        magnitude
    } else {
        -magnitude
    }
}

/// Compares two double-precision patterns: `a < b`.
pub fn is_less64(a: u64, b: u64) -> (less: bool)
    ensures
        less == less64(a, b),
{
    !is_nan64(a) && !is_nan64(b) && rank_of64(a) < rank_of64(b)
}

/// Compares two double-precision patterns: `a <= b`.
pub fn is_at_most64(a: u64, b: u64) -> (at_most: bool)
    ensures
        at_most == at_most64(a, b),
{
    !is_nan64(a) && !is_nan64(b) && rank_of64(a) <= rank_of64(b)
}

} // verus!
