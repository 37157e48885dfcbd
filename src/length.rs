//! How many samples per channel to generate: for a duration, for an explicit
//! buffer length, or for exactly one synchronised cycle of a set of tones.
use vstd::prelude::*;
use vstd::arithmetic::div_mod::{
    lemma_fundamental_div_mod, lemma_mod_multiples_basic, lemma_mod_self_0,
};
use vstd::arithmetic::mul::lemma_mul_is_associative;
use crate::error::WavGenError;

verus! {

/// The factor that keeps sample periods whole before their least common
/// multiple is taken.
pub const PERIOD_SCALE: u64 = 20000;

/// Greatest common divisor, by Euclid's algorithm.
pub open spec fn gcd(a: nat, b: nat) -> nat
    decreases b,
{
    if b == 0 {
        a
    } else {
        gcd(b, a % b)
    }
}

/// Least common multiple: zero when both are zero, else `a * (b / gcd(a, b))`.
pub open spec fn lcm(a: nat, b: nat) -> nat {
    if a == 0 && b == 0 {
        0
    } else {
        a * (b / gcd(a, b))
    }
}

/// `gcd(a, b)` divides both of them, and is positive unless both are zero.
pub proof fn lemma_gcd_divides(a: nat, b: nat)
    ensures
        a > 0 || b > 0 ==> gcd(a, b) > 0,
        gcd(a, b) > 0 ==> a % gcd(a, b) == 0 && b % gcd(a, b) == 0,
    decreases b,
{
    if b > 0 {
        let r = a % b;
        lemma_gcd_divides(b, r);
        let g = gcd(b, r);
        assert(g > 0);
        lemma_fundamental_div_mod(a as int, b as int);
        lemma_fundamental_div_mod(b as int, g as int);
        lemma_fundamental_div_mod(r as int, g as int);
        let qb = b / g;
        let qr = r / g;
        assert(a == g * (qb * (a / b) + qr)) by (nonlinear_arith)
            requires
                a == b * (a / b) + r,
                b == g * qb,
                r == g * qr,
        ;
        lemma_mod_multiples_basic((qb * (a / b) + qr) as int, g as int);
        assert(a % g == 0) by (nonlinear_arith)
            requires
                a == g * (qb * (a / b) + qr),
                (((qb * (a / b) + qr) * g) as int) % (g as int) == 0,
        ;
    } else if a > 0 {
        lemma_mod_self_0(a as int);
    }
}

/// A positive multiple of `d` is at least `d`.
proof fn lemma_divisor_le(x: nat, d: nat)
    requires
        x > 0,
        d > 0,
        x % d == 0,
    ensures
        d <= x,
{
    if x < d {
        vstd::arithmetic::div_mod::lemma_small_mod(x, d);
    }
}

/// `lcm(a, b)` of two positive values lies between `a` and `a * b`.
proof fn lemma_lcm_bounds(a: nat, b: nat)
    requires
        a > 0,
        b > 0,
    ensures
        a <= lcm(a, b) <= a * b,
{
    lemma_gcd_divides(a, b);
    let g = gcd(a, b);
    lemma_divisor_le(b, g);
    assert(1 <= b / g <= b) by (nonlinear_arith)
        requires
            0 < g <= b,
    ;
    assert(a <= a * (b / g) <= a * b) by (nonlinear_arith)
        requires
            1 <= b / g <= b,
            a > 0,
    ;
}

/// Relies on `num::integer::lcm` (num-integer's `Integer::lcm` for `u128`):
/// zero when both arguments are zero, else `x * (y / gcd(x, y))`, which
/// panics when that product overflows.
#[verifier::external_body]
fn lcm_u128(x: u128, y: u128) -> (r: u128)
    requires
        lcm(x as nat, y as nat) <= u128::MAX,
    ensures
        r as nat == lcm(x as nat, y as nat),
{
    num::integer::lcm(x, y)
}

/// Samples per channel for `duration` seconds: `duration * sampling_rate`.
pub fn samples_for_duration(duration: u32, sampling_rate: u32) -> (r: u32)
    requires
        duration * sampling_rate <= u32::MAX,
    ensures
        r == duration * sampling_rate,
{
    duration * sampling_rate
}

/// Samples per channel for a buffer of `length` entries: `length / 2` for
/// stereo, `length` otherwise. A stereo length must be even: an odd one
/// fails with `InvalidLength`.
pub fn samples_for_length(length: u32, number_channels: u8) -> (r: Result<u32, WavGenError>)
    ensures
        number_channels == 2 && length % 2 == 1 <==> r == Err::<u32, WavGenError>(
            WavGenError::InvalidLength,
        ),
        number_channels == 2 && length % 2 == 0 ==> r == Ok::<u32, WavGenError>(length / 2),
        number_channels != 2 ==> r == Ok::<u32, WavGenError>(length),
{
    if number_channels == 2 {
        if length % 2 != 0 {
            Err(WavGenError::InvalidLength)
        } else {
            Ok(length / 2)
        }
    } else {
        Ok(length)
    }
}

/// The period of a tone in samples, times `PERIOD_SCALE`, rounded down.
pub open spec fn scaled_period(frequency: nat, sampling_rate: nat) -> nat {
    ((sampling_rate * PERIOD_SCALE) as int / frequency as int) as nat
}

/// The least common multiple of the scaled periods of the tones.
pub open spec fn common_period(frequencies: Seq<u32>, sampling_rate: nat) -> nat
    decreases frequencies.len(),
{
    if frequencies.len() == 0 {
        1
    } else {
        lcm(
            common_period(frequencies.drop_last(), sampling_rate),
            scaled_period(frequencies.last() as nat, sampling_rate),
        )
    }
}

/// The synchronised cycle of a set of tones: the smallest number of samples
/// after which every tone starts a new period at the same time.
pub open spec fn sync_cycle(frequencies: Seq<u32>, sampling_rate: nat) -> nat {
    common_period(frequencies, sampling_rate) / PERIOD_SCALE as nat
}

proof fn lemma_common_period_zero(frequencies: Seq<u32>, sampling_rate: nat, j: int)
    requires
        0 <= j < frequencies.len(),
        scaled_period(frequencies[j] as nat, sampling_rate) == 0,
    ensures
        common_period(frequencies, sampling_rate) == 0,
    decreases frequencies.len(),
{
    let rest = frequencies.drop_last();
    if j < frequencies.len() - 1 {
        lemma_common_period_zero(rest, sampling_rate, j);
    }
    let p = scaled_period(frequencies.last() as nat, sampling_rate);
    let c = common_period(rest, sampling_rate);
    if c > 0 || p > 0 {
        lemma_gcd_divides(c, p);
        assert(c * (p / gcd(c, p)) == 0) by (nonlinear_arith)
            requires
                c == 0 || p == 0,
                p == 0 ==> p / gcd(c, p) == 0,
        ;
    }
}

proof fn lemma_common_period_grows(frequencies: Seq<u32>, sampling_rate: nat, j: int)
    requires
        0 <= j <= frequencies.len(),
        forall|i: int| 0 <= i < frequencies.len() ==> scaled_period(#[trigger] frequencies[i] as nat, sampling_rate) > 0,
    ensures
        0 < common_period(frequencies.subrange(0, j), sampling_rate) <= common_period(frequencies, sampling_rate),
    decreases frequencies.len() - j,
{
    if j < frequencies.len() {
        lemma_common_period_grows(frequencies, sampling_rate, j + 1);
        let s = frequencies.subrange(0, j + 1);
        let prefix = frequencies.subrange(0, j);
        assert(s.drop_last() == prefix);
        assert(s.last() == frequencies[j]);
        assert forall|i: int| 0 <= i < prefix.len() implies scaled_period(#[trigger] prefix[i] as nat, sampling_rate) > 0 by {
            assert(prefix[i] == frequencies[i]);
        }
        lemma_common_period_positive(prefix, sampling_rate);
        assert(scaled_period(frequencies[j] as nat, sampling_rate) > 0);
        lemma_lcm_bounds(
            common_period(frequencies.subrange(0, j), sampling_rate),
            scaled_period(frequencies[j] as nat, sampling_rate),
        );
    } else {
        assert(frequencies.subrange(0, j) == frequencies);
        lemma_common_period_positive(frequencies, sampling_rate);
    }
}

proof fn lemma_common_period_positive(frequencies: Seq<u32>, sampling_rate: nat)
    requires
        forall|i: int| 0 <= i < frequencies.len() ==> scaled_period(#[trigger] frequencies[i] as nat, sampling_rate) > 0,
    ensures
        0 < common_period(frequencies, sampling_rate),
    decreases frequencies.len(),
{
    if frequencies.len() > 0 {
        let rest = frequencies.drop_last();
        assert forall|i: int| 0 <= i < rest.len() implies scaled_period(#[trigger] rest[i] as nat, sampling_rate) > 0 by {
            assert(rest[i] == frequencies[i]);
        }
        lemma_common_period_positive(rest, sampling_rate);
        lemma_lcm_bounds(
            common_period(rest, sampling_rate),
            scaled_period(frequencies.last() as nat, sampling_rate),
        );
    }
}

/// `scaled_period` computed on machine integers.
fn scaled_period_of(frequency: u32, sampling_rate: u32) -> (r: u64)
    requires
        frequency > 0,
    ensures
        r as nat == scaled_period(frequency as nat, sampling_rate as nat),
{
    assert(sampling_rate as u64 * PERIOD_SCALE <= u32::MAX * PERIOD_SCALE) by (nonlinear_arith)
        requires
            sampling_rate <= u32::MAX,
    ;
    sampling_rate as u64 * PERIOD_SCALE / frequency as u64
}

/// One synchronised cycle of a set of tones, in samples: the least common
/// multiple of their periods. Each period `sampling_rate / frequency` is
/// first scaled by `PERIOD_SCALE` and rounded down, and the multiple is
/// divided back by it. A tone of frequency zero has no period: that fails
/// with `UnsupportedLengthPolicy`. A cycle that does not fit in `u32` fails
/// with `CycleTooLong`.
pub fn sync_period(frequencies: &Vec<u32>, sampling_rate: u32) -> (r: Result<u32, WavGenError>)
    ensures
        (exists|i: int| 0 <= i < frequencies@.len() && frequencies@[i] == 0) <==> r == Err::<
            u32,
            WavGenError,
        >(WavGenError::UnsupportedLengthPolicy),
        (forall|i: int| 0 <= i < frequencies@.len() ==> frequencies@[i] > 0) ==> (if sync_cycle(
            frequencies@,
            sampling_rate as nat,
        ) <= u32::MAX {
            r == Ok::<u32, WavGenError>(sync_cycle(frequencies@, sampling_rate as nat) as u32)
        } else {
            r == Err::<u32, WavGenError>(WavGenError::CycleTooLong)
        }),
{
    let ghost fs = frequencies@;
    let ghost rate = sampling_rate as nat;
    let mut i: usize = 0;
    while i < frequencies.len()
        invariant
            i <= fs.len(),
            fs == frequencies@,
            forall|j: int| 0 <= j < i ==> fs[j] > 0,
        decreases fs.len() - i,
    {
        if frequencies[i] == 0 {
            return Err(WavGenError::UnsupportedLengthPolicy);
        }
        i = i + 1;
    }
    let mut i: usize = 0;
    while i < frequencies.len()
        invariant
            i <= fs.len(),
            fs == frequencies@,
            rate == sampling_rate as nat,
            forall|j: int| 0 <= j < fs.len() ==> fs[j] > 0,
            forall|j: int| 0 <= j < i ==> scaled_period(#[trigger] fs[j] as nat, rate) > 0,
        decreases fs.len() - i,
    {
        let f = frequencies[i];
        let scaled = scaled_period_of(f, sampling_rate);
        assert(scaled as nat == scaled_period(fs[i as int] as nat, rate));
        if scaled == 0 {
            proof {
                lemma_common_period_zero(fs, rate, i as int);
            }
            return Ok(0);
        }
        i = i + 1;
    }
    let mut period: u64 = 1;
    let mut i: usize = 0;
    while i < frequencies.len()
        invariant
            i <= fs.len(),
            fs == frequencies@,
            rate == sampling_rate as nat,
            forall|j: int| 0 <= j < fs.len() ==> fs[j] > 0,
            forall|j: int| 0 <= j < fs.len() ==> scaled_period(#[trigger] fs[j] as nat, rate) > 0,
            period as nat == common_period(fs.subrange(0, i as int), rate),
        decreases fs.len() - i,
    {
        let scaled = scaled_period_of(frequencies[i], sampling_rate);
        proof {
            assert(scaled as nat == scaled_period(fs[i as int] as nat, rate));
            assert(fs.subrange(0, i + 1).drop_last() == fs.subrange(0, i as int));
            assert(fs.subrange(0, i + 1).last() == fs[i as int]);
            lemma_common_period_grows(fs, rate, i as int);
            lemma_lcm_bounds(period as nat, scaled as nat);
            assert(period as nat * scaled as nat <= u64::MAX * u64::MAX) by (nonlinear_arith)
                requires
                    period <= u64::MAX,
                    scaled <= u64::MAX,
            ;
        }
        let next = lcm_u128(period as u128, scaled as u128);
        if next > u64::MAX as u128 {
            proof {
                lemma_common_period_grows(fs, rate, i + 1);
                let whole = common_period(fs, rate);
                assert(whole >= next);
                assert(whole / (PERIOD_SCALE as nat) > u32::MAX) by (nonlinear_arith)
                    requires
                        whole > u64::MAX,
                ;
            }
            return Err(WavGenError::CycleTooLong);
        }
        period = next as u64;
        i = i + 1;
    }
    proof {
        assert(fs.subrange(0, i as int) == fs);
    }
    let cycle = period / PERIOD_SCALE;
    if cycle > u32::MAX as u64 {
        Err(WavGenError::CycleTooLong)
    } else {
        Ok(cycle as u32)
    }
}

/// `lcm(a, b)` is a multiple of both `a` and `b`.
proof fn lemma_lcm_multiple(a: nat, b: nat)
    requires
        a > 0,
        b > 0,
    ensures
        lcm(a, b) % a == 0,
        lcm(a, b) % b == 0,
{
    lemma_gcd_divides(a, b);
    let g = gcd(a, b);
    let qa = a / g;
    let qb = b / g;
    lemma_fundamental_div_mod(a as int, g as int);
    lemma_fundamental_div_mod(b as int, g as int);
    assert(a * qb == qa * b) by (nonlinear_arith)
        requires
            a == g * qa,
            b == g * qb,
    ;
    lemma_mod_multiples_basic(qb as int, a as int);
    lemma_mod_multiples_basic(qa as int, b as int);
    assert(qb * a == a * qb) by (nonlinear_arith);
    assert(qa * b == a * qb) by (nonlinear_arith)
        requires
            a * qb == qa * b,
    ;
}

/// Divisibility is transitive.
proof fn lemma_divides_trans(x: nat, y: nat, z: nat)
    requires
        y > 0,
        z > 0,
        x % y == 0,
        y % z == 0,
    ensures
        x % z == 0,
{
    lemma_fundamental_div_mod(x as int, y as int);
    lemma_fundamental_div_mod(y as int, z as int);
    let q1 = x / y;
    let q2 = y / z;
    lemma_mul_is_associative(z as int, q2 as int, q1 as int);
    assert(x == z * (q2 * q1)) by (nonlinear_arith)
        requires
            x == y * q1,
            y == z * q2,
    ;
    lemma_mod_multiples_basic((q2 * q1) as int, z as int);
    assert((q2 * q1) * z == z * (q2 * q1)) by (nonlinear_arith);
}

/// When every tone has a period, their common period (scaled by
/// `PERIOD_SCALE`) is a positive multiple of each of the tones' scaled
/// periods: every tone completes a whole number of its scaled periods in it.
pub proof fn lemma_common_period_multiple(frequencies: Seq<u32>, sampling_rate: nat)
    requires
        forall|i: int|
            0 <= i < frequencies.len() ==> scaled_period(#[trigger] frequencies[i] as nat, sampling_rate)
                > 0,
    ensures
        common_period(frequencies, sampling_rate) > 0,
        forall|i: int|
            0 <= i < frequencies.len() ==> common_period(frequencies, sampling_rate) % scaled_period(
                #[trigger] frequencies[i] as nat,
                sampling_rate,
            ) == 0,
    decreases frequencies.len(),
{
    lemma_common_period_positive(frequencies, sampling_rate);
    if frequencies.len() > 0 {
        let rest = frequencies.drop_last();
        assert forall|i: int| 0 <= i < rest.len() implies scaled_period(#[trigger] rest[i] as nat, sampling_rate) > 0 by {
            assert(rest[i] == frequencies[i]);
        }
        lemma_common_period_multiple(rest, sampling_rate);
        let c = common_period(rest, sampling_rate);
        let p = scaled_period(frequencies.last() as nat, sampling_rate);
        lemma_lcm_multiple(c, p);
        assert forall|i: int| 0 <= i < frequencies.len() implies common_period(frequencies, sampling_rate)
            % scaled_period(#[trigger] frequencies[i] as nat, sampling_rate) == 0 by {
            if i < rest.len() {
                assert(rest[i] == frequencies[i]);
                lemma_divides_trans(lcm(c, p), c, scaled_period(frequencies[i] as nat, sampling_rate));
            }
        }
    }
}

} // verus!
