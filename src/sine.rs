//! Fixed-point sine.
//!
//! An angle is an integer in `[0, FULL_TURN)`, a fraction of one turn in
//! units of 2^-32 turn. The sine itself is computed in units of 2^-30 by an
//! odd polynomial (the Taylor series of `sin(pi/2 * z)` up to `z^13`) on the
//! first quarter turn and extended to the full turn by symmetry. Every step
//! rounds to nearest; the quarter-wave value never exceeds `ONE`.
use vstd::prelude::*;

verus! {

/// One unit of the fixed-point sine: 2^30.
pub const ONE: u64 = 1073741824;

/// A quarter of a turn, in angle units.
pub const QUARTER_TURN: u64 = 1073741824;

/// A full turn, in angle units: 2^32.
pub const FULL_TURN: u64 = 4294967296;

/// Coefficients of the series of `sin(pi/2 * z)`, in units of 2^-30:
/// `(pi/2)^(2j+1) / (2j+1)!` for `j = 0 ..= 6`, each rounded to nearest.
pub const C1: u64 = 1686629713;
pub const C3: u64 = 693598668;
pub const C5: u64 = 85569306;
pub const C7: u64 = 5026995;
pub const C9: u64 = 172272;
pub const C11: u64 = 3864;
pub const C13: u64 = 61;

/// Product of two fixed-point values, rounded to nearest.
pub open spec fn mul_round(x: int, y: int) -> int {
    (x * y + ONE / 2) / (ONE as int)
}

/// One Horner step of the alternating series: `c - z2 * p`.
pub open spec fn horner_step(c: int, z2: int, p: int) -> int {
    c - mul_round(z2, p)
}

/// The series evaluated at `z` (in units of 2^-30, `0 <= z <= ONE`),
/// before the clamp to `ONE`.
pub open spec fn series(z: int) -> int {
    let z2 = mul_round(z, z);
    let p = horner_step(C11 as int, z2, C13 as int);
    let p = horner_step(C9 as int, z2, p);
    let p = horner_step(C7 as int, z2, p);
    let p = horner_step(C5 as int, z2, p);
    let p = horner_step(C3 as int, z2, p);
    let p = horner_step(C1 as int, z2, p);
    mul_round(z, p)
}

/// `sin(pi/2 * z / ONE)` in units of 2^-30, for `0 <= z <= ONE`.
pub open spec fn quarter_sine_spec(z: int) -> int {
    if series(z) > ONE as int { ONE as int } else { series(z) }
}

/// The angle folded into the first quarter turn: the distance that gives the
/// same absolute value of the sine.
pub open spec fn fold_angle(angle: int) -> int {
    let quadrant = angle / (QUARTER_TURN as int);
    let rest = angle % (QUARTER_TURN as int);
    if quadrant % 2 == 1 { QUARTER_TURN - rest } else { rest }
}

/// Whether the sine of the angle is negative or zero (second half turn).
pub open spec fn negative_half(angle: int) -> bool {
    angle >= 2 * QUARTER_TURN
}

/// `value` limited to the range of `i16`.
pub open spec fn clamp_i16(value: int) -> int {
    if value > i16::MAX { i16::MAX as int } else if value < i16::MIN { i16::MIN as int } else { value }
}

/// `volume * sin(angle)`, truncated toward zero and limited to `i16`.
pub open spec fn sine_sample_spec(angle: int, volume: int) -> int {
    let magnitude = volume * quarter_sine_spec(fold_angle(angle)) / (ONE as int);
    clamp_i16(if negative_half(angle) { -magnitude } else { magnitude })
}

proof fn lemma_mul_round_le(x: int, y: int)
    requires
        0 <= x <= ONE,
        0 <= y,
    ensures
        0 <= mul_round(x, y) <= y,
        y <= 2 * ONE ==> x * y <= 2 * ONE * ONE,
{
    if y <= 2 * ONE {
        assert(x * y <= 2 * ONE * ONE) by (nonlinear_arith)
            requires
                0 <= x <= ONE,
                0 <= y <= 2 * ONE,
        ;
    }
    assert(0 <= x * y <= ONE * y) by (nonlinear_arith)
        requires
            0 <= x <= ONE,
            0 <= y,
    ;
    assert((x * y + ONE / 2) / (ONE as int) <= y) by (nonlinear_arith)
        requires
            x * y <= ONE * y,
            0 <= y,
            ONE == 1073741824,
    ;
    assert(0 <= (x * y + ONE / 2) / (ONE as int)) by (nonlinear_arith)
        requires
            0 <= x * y,
            ONE == 1073741824,
    ;
}

/// Every step of the series stays between zero and its coefficient.
proof fn lemma_series_bounds(z: int)
    requires
        0 <= z <= ONE,
    ensures
        0 <= series(z),
        series(z) <= z * C1 / (ONE as int) + 1,
        z == 0 ==> series(z) == 0,
{
    let z2 = mul_round(z, z);
    lemma_mul_round_le(z, z);
    assert(z <= ONE);
    assert(z2 <= ONE);
    let p = horner_step(C11 as int, z2, C13 as int);
    lemma_mul_round_le(z2, C13 as int);
    let p1 = horner_step(C9 as int, z2, p);
    lemma_mul_round_le(z2, p);
    let p2 = horner_step(C7 as int, z2, p1);
    lemma_mul_round_le(z2, p1);
    let p3 = horner_step(C5 as int, z2, p2);
    lemma_mul_round_le(z2, p2);
    let p4 = horner_step(C3 as int, z2, p3);
    lemma_mul_round_le(z2, p3);
    let p5 = horner_step(C1 as int, z2, p4);
    lemma_mul_round_le(z2, p4);
    assert(0 <= p5 <= C1);
    lemma_mul_round_le(z, p5);
    assert(z * p5 <= z * C1) by (nonlinear_arith)
        requires
            0 <= z,
            p5 <= C1,
    ;
    assert((z * p5 + ONE / 2) / (ONE as int) <= z * C1 / (ONE as int) + 1) by (nonlinear_arith)
        requires
            z * p5 <= z * C1,
            ONE == 1073741824,
    ;
}

/// The sine of the first quarter turn, `sin(pi/2 * z / ONE)` in units of
/// 2^-30.
pub fn quarter_sine(z: u64) -> (r: u64)
    requires
        z <= ONE,
    ensures
        r as int == quarter_sine_spec(z as int),
        r <= ONE,
        z == 0 ==> r == 0,
{
    proof {
        lemma_series_bounds(z as int);
    }
    let ghost zi = z as int;
    proof {
        lemma_mul_round_le(zi, zi);
    }
    let z2 = (z * z + ONE / 2) / ONE;
    let mut p: u64 = C13;
    proof {
        lemma_mul_round_le(z2 as int, p as int);
    }
    p = C11 - (z2 * p + ONE / 2) / ONE;
    proof {
        lemma_mul_round_le(z2 as int, p as int);
    }
    p = C9 - (z2 * p + ONE / 2) / ONE;
    proof {
        lemma_mul_round_le(z2 as int, p as int);
    }
    p = C7 - (z2 * p + ONE / 2) / ONE;
    proof {
        lemma_mul_round_le(z2 as int, p as int);
    }
    p = C5 - (z2 * p + ONE / 2) / ONE;
    proof {
        lemma_mul_round_le(z2 as int, p as int);
    }
    p = C3 - (z2 * p + ONE / 2) / ONE;
    proof {
        lemma_mul_round_le(z2 as int, p as int);
    }
    p = C1 - (z2 * p + ONE / 2) / ONE;
    proof {
        lemma_mul_round_le(zi, p as int);
    }
    let s = (z * p + ONE / 2) / ONE;
    if s > ONE {
        ONE
    } else {
        s
    }
}

/// `volume * sin(2 pi * angle / FULL_TURN)`, truncated toward zero and
/// limited to the range of `i16`.
pub fn sine_sample(angle: u64, volume: u16) -> (r: i16)
    requires
        angle < FULL_TURN,
    ensures
        r as int == sine_sample_spec(angle as int, volume as int),
        -(volume as int) <= r <= volume,
        angle == 0 ==> r == 0,
{
    let quadrant = angle / QUARTER_TURN;
    let rest = angle % QUARTER_TURN;
    let folded = if quadrant % 2 == 1 {
        QUARTER_TURN - rest
    } else {
        rest
    };
    let s = quarter_sine(folded);
    assert((volume as u64) * s <= 65535 * ONE) by (nonlinear_arith)
        requires
            volume <= 65535,
            s <= ONE,
    ;
    let magnitude = (volume as u64) * s / ONE;
    assert(magnitude <= volume) by (nonlinear_arith)
        requires
            magnitude == (volume as int) * (s as int) / (ONE as int),
            s <= ONE,
            ONE == 1073741824,
    ;
    if angle >= 2 * QUARTER_TURN {
        if magnitude > 32768 {
            i16::MIN
        } else {
            -(magnitude as i32) as i16
        }
    } else {
        if magnitude > 32767 {
            i16::MAX
        } else {
            magnitude as i16
        }
    }
}

/// A sample never exceeds its volume.
pub proof fn lemma_sine_sample_bound(angle: int, volume: int)
    requires
        0 <= angle < FULL_TURN,
        0 <= volume <= u16::MAX,
    ensures
        -volume <= sine_sample_spec(angle, volume) <= volume,
{
    let folded = fold_angle(angle);
    assert(0 <= folded <= ONE);
    lemma_series_bounds(folded);
    let s = quarter_sine_spec(folded);
    assert(0 <= s <= ONE);
    assert(0 <= volume * s / (ONE as int) <= volume) by (nonlinear_arith)
        requires
            0 <= s <= ONE,
            0 <= volume,
            ONE == 1073741824,
    ;
}

/// The sine of angle zero is zero, whatever the volume.
pub proof fn lemma_sine_sample_zero(volume: int)
    requires
        0 <= volume <= u16::MAX,
    ensures
        sine_sample_spec(0, volume) == 0,
{
    assert(fold_angle(0) == 0);
    lemma_series_bounds(0);
    assert(volume * 0 / (ONE as int) == 0);
}

} // verus!
