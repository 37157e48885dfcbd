//! The signal generators: a pure tone, a linear sweep and a superposition of
//! harmonics, each a flat buffer of signed 16-bit samples.
//!
//! With two channels every sample is written twice, left then right, with the
//! same value.
use vstd::prelude::*;
use crate::error::WavGenError;
use crate::harmonics::{amplitude_sum, lemma_amplitude_sum_nonneg, normalise_harmonics, Harmonic};
use crate::sine::{
    clamp_i16, lemma_sine_sample_bound, lemma_sine_sample_zero, sine_sample, sine_sample_spec,
    FULL_TURN,
};

verus! {

/// Samples written per time step: two for stereo, one otherwise.
pub open spec fn channel_count(number_channels: u8) -> int {
    if number_channels == 2 { 2 } else { 1 }
}

/// The angle (in units of 2^-32 turn) of `2 pi * num / den`, reduced to one
/// turn and rounded down.
pub open spec fn turn_angle(num: int, den: int) -> int {
    (num % den) * FULL_TURN / den
}

/// Sample `t` of a tone: `volume * sin(2 pi * frequency * t / sampling_rate)`.
pub open spec fn tone_value(frequency: int, t: int, volume: int, sampling_rate: int) -> int {
    sine_sample_spec(turn_angle(frequency * t, sampling_rate), volume)
}

/// Whether `data` holds `values(t)` for each step `t` below `number_samples`,
/// once per channel.
pub open spec fn laid_out(
    data: Seq<i16>,
    number_samples: int,
    number_channels: u8,
    values: spec_fn(int) -> int,
) -> bool {
    &&& data.len() == number_samples * channel_count(number_channels)
    &&& forall|i: int|
        0 <= i < data.len() ==> #[trigger] data[i] as int == values(i / channel_count(number_channels))
}

/// `turn_angle(num, den)` computed on machine integers.
fn angle_of(num: u128, den: u128) -> (r: u64)
    requires
        0 < den <= u64::MAX,
    ensures
        r as int == turn_angle(num as int, den as int),
        r < FULL_TURN,
{
    let reduced = num % den;
    assert(reduced * (FULL_TURN as u128) < den * (FULL_TURN as u128)) by (nonlinear_arith)
        requires
            reduced < den,
    ;
    assert(den * (FULL_TURN as u128) <= u64::MAX * FULL_TURN) by (nonlinear_arith)
        requires
            den <= u64::MAX,
    ;
    let scaled = reduced * (FULL_TURN as u128);
    let angle = scaled / den;
    assert(angle < FULL_TURN) by (nonlinear_arith)
        requires
            angle == scaled / den,
            scaled < den * FULL_TURN,
            0 < den,
    ;
    angle as u64
}

/// Appends `value` once, or twice with two channels.
fn push_sample(data: &mut Vec<i16>, value: i16, number_channels: u8)
    ensures
        number_channels == 2 ==> final(data)@ == old(data)@.push(value).push(value),
        number_channels != 2 ==> final(data)@ == old(data)@.push(value),
{
    data.push(value);
    if number_channels == 2 {
        data.push(value);
    }
}

proof fn lemma_step_index(t: int, c: int)
    requires
        c == 1 || c == 2,
        0 <= t,
    ensures
        (t * c) / c == t,
        c == 2 ==> (t * c + 1) / c == t,
        (t + 1) * c == t * c + c,
{
}

/// A sine tone: for each step `t` below `number_samples`, the sample
/// `volume * sin(2 pi * frequency * t / sampling_rate)`, truncated toward zero
/// and limited to `i16`.
pub fn gen_sine_wave(
    frequency: u32,
    number_samples: u32,
    number_channels: u8,
    volume: u16,
    sampling_rate: u32,
) -> (data: Vec<i16>)
    requires
        sampling_rate > 0,
    ensures
        laid_out(
            data@,
            number_samples as int,
            number_channels,
            |t: int| tone_value(frequency as int, t, volume as int, sampling_rate as int),
        ),
{
    let ghost c = channel_count(number_channels);
    let ghost values = |t: int| tone_value(frequency as int, t, volume as int, sampling_rate as int);
    let mut data = Vec::<i16>::new();
    let mut t: u32 = 0;
    while t < number_samples
        invariant
            t <= number_samples,
            sampling_rate > 0,
            c == channel_count(number_channels),
            values == (|t: int| tone_value(frequency as int, t, volume as int, sampling_rate as int)),
            laid_out(data@, t as int, number_channels, values),
        decreases number_samples - t,
    {
        assert((frequency as u128) * (t as u128) <= u64::MAX) by (nonlinear_arith)
            requires
                frequency <= u32::MAX,
                t <= u32::MAX,
        ;
        let angle = angle_of((frequency as u128) * (t as u128), sampling_rate as u128);
        let value = sine_sample(angle, volume);
        let ghost before = data@;
        push_sample(&mut data, value, number_channels);
        proof {
            lemma_step_index(t as int, c);
            assert forall|i: int| 0 <= i < data@.len() implies #[trigger] data@[i] as int == values(
                i / c,
            ) by {
                if i < before.len() {
                    assert(data@[i] == before[i]);
                } else {
                    assert(i / c == t as int);
                }
            }
        }
        t = t + 1;
    }
    data
}

/// The frequency of a sweep at step `t`, in units of `1 / number_samples` Hz:
/// it starts at `start` and grows by `(finish - start) / number_samples` at
/// every step.
pub open spec fn sweep_frequency(start: int, finish: int, number_samples: int, t: nat) -> int
    decreases t,
{
    if t == 0 {
        start * number_samples
    } else {
        sweep_frequency(start, finish, number_samples, (t - 1) as nat) + (finish - start)
    }
}

/// Sample `t` of a sweep: `volume * sin(2 pi * t * f(t) / sampling_rate)`,
/// with `f(t)` the sweep's frequency at that step.
pub open spec fn sweep_value(
    start: int,
    finish: int,
    number_samples: int,
    t: int,
    volume: int,
    sampling_rate: int,
) -> int {
    sine_sample_spec(
        turn_angle(
            t * sweep_frequency(start, finish, number_samples, t as nat),
            number_samples * sampling_rate,
        ),
        volume,
    )
}

/// After `t` steps the sweep's frequency is the weighted mean of the two ends:
/// `start * (number_samples - t) + finish * t`.
pub proof fn lemma_sweep_frequency(start: int, finish: int, number_samples: int, t: nat)
    ensures
        sweep_frequency(start, finish, number_samples, t) == start * number_samples + t * (finish
            - start),
        sweep_frequency(start, finish, number_samples, t) == start * (number_samples - t) + finish
            * t,
    decreases t,
{
    if t > 0 {
        lemma_sweep_frequency(start, finish, number_samples, (t - 1) as nat);
        assert(sweep_frequency(start, finish, number_samples, t) == sweep_frequency(
            start,
            finish,
            number_samples,
            (t - 1) as nat,
        ) + (finish - start));
        assert(start * number_samples + (t - 1) * (finish - start) + (finish - start) == start
            * number_samples + t * (finish - start)) by (nonlinear_arith);
    } else {
        assert(t * (finish - start) == 0) by (nonlinear_arith)
            requires
                t == 0,
        ;
    }
    assert(start * number_samples + t * (finish - start) == start * (number_samples - t) + finish
        * t) by (nonlinear_arith);
}

/// The sweep's frequency stays between its two ends up to the last step, and
/// is non-negative.
proof fn lemma_sweep_frequency_range(start: int, finish: int, number_samples: int, t: nat)
    requires
        0 <= start,
        0 <= finish,
        t <= number_samples,
    ensures
        0 <= sweep_frequency(start, finish, number_samples, t),
        sweep_frequency(start, finish, number_samples, t) <= (if start > finish {
            start
        } else {
            finish
        }) * number_samples,
{
    lemma_sweep_frequency(start, finish, number_samples, t);
    let m = if start > finish { start } else { finish };
    assert(0 <= start * (number_samples - t) + finish * t <= m * number_samples) by (nonlinear_arith)
        requires
            0 <= start <= m,
            0 <= finish <= m,
            0 <= t <= number_samples,
    ;
}

/// A linear sweep from `start` to `finish` Hz over `number_samples` steps.
/// The frequency is carried from step to step and grows by
/// `(finish - start) / number_samples` each time; sample `t` is
/// `volume * sin(2 pi * t * f(t) / sampling_rate)`, truncated toward zero and
/// limited to `i16`.
pub fn gen_sweep_wave(
    start: u32,
    finish: u32,
    number_samples: u32,
    number_channels: u8,
    volume: u16,
    sampling_rate: u32,
) -> (data: Vec<i16>)
    requires
        sampling_rate > 0,
    ensures
        laid_out(
            data@,
            number_samples as int,
            number_channels,
            |t: int|
                sweep_value(
                    start as int,
                    finish as int,
                    number_samples as int,
                    t,
                    volume as int,
                    sampling_rate as int,
                ),
        ),
{
    let ghost c = channel_count(number_channels);
    let ghost values = |t: int|
        sweep_value(
            start as int,
            finish as int,
            number_samples as int,
            t,
            volume as int,
            sampling_rate as int,
        );
    let mut data = Vec::<i16>::new();
    let increment: i128 = finish as i128 - start as i128;
    // the frequency, in units of 1 / number_samples Hz
    assert(start * number_samples <= u32::MAX * u32::MAX) by (nonlinear_arith)
        requires
            start <= u32::MAX,
            number_samples <= u32::MAX,
    ;
    assert(number_samples * sampling_rate <= u32::MAX * u32::MAX) by (nonlinear_arith)
        requires
            sampling_rate <= u32::MAX,
            number_samples <= u32::MAX,
    ;
    let mut frequency: i128 = start as i128 * number_samples as i128;
    let den: u128 = number_samples as u128 * sampling_rate as u128;
    let mut t: u32 = 0;
    while t < number_samples
        invariant
            t <= number_samples,
            sampling_rate > 0,
            c == channel_count(number_channels),
            increment == finish - start,
            den == number_samples * sampling_rate,
            frequency == sweep_frequency(start as int, finish as int, number_samples as int, t as nat),
            values == (|t: int|
                sweep_value(
                    start as int,
                    finish as int,
                    number_samples as int,
                    t,
                    volume as int,
                    sampling_rate as int,
                )),
            laid_out(data@, t as int, number_channels, values),
        decreases number_samples - t,
    {
        proof {
            lemma_sweep_frequency_range(start as int, finish as int, number_samples as int, t as nat);
            assert(den <= u64::MAX) by (nonlinear_arith)
                requires
                    den == number_samples * sampling_rate,
                    number_samples <= u32::MAX,
                    sampling_rate <= u32::MAX,
            ;
            assert(0 < den) by (nonlinear_arith)
                requires
                    den == number_samples * sampling_rate,
                    t < number_samples,
                    0 < sampling_rate,
            ;
            assert((t as int) * frequency <= u32::MAX * (u32::MAX * u32::MAX)) by (nonlinear_arith)
                requires
                    0 <= frequency <= (if start > finish { start as int } else { finish as int })
                        * number_samples,
                    t <= u32::MAX,
                    start <= u32::MAX,
                    finish <= u32::MAX,
                    number_samples <= u32::MAX,
            ;
            assert(0 <= (t as int) * frequency) by (nonlinear_arith)
                requires
                    0 <= frequency,
            ;
        }
        let angle = angle_of(t as u128 * frequency as u128, den);
        let value = sine_sample(angle, volume);
        let ghost before = data@;
        push_sample(&mut data, value, number_channels);
        proof {
            lemma_step_index(t as int, c);
            assert forall|i: int| 0 <= i < data@.len() implies #[trigger] data@[i] as int == values(
                i / c,
            ) by {
                if i < before.len() {
                    assert(data@[i] == before[i]);
                } else {
                    assert(i / c == t as int);
                }
            }
            lemma_sweep_frequency_range(start as int, finish as int, number_samples as int, (t + 1) as nat);
            assert(sweep_frequency(start as int, finish as int, number_samples as int, (t + 1) as nat)
                == frequency + increment);
            assert((if start > finish { start as int } else { finish as int }) * number_samples
                <= u32::MAX * u32::MAX) by (nonlinear_arith)
                requires
                    start <= u32::MAX,
                    finish <= u32::MAX,
                    number_samples <= u32::MAX,
            ;
        }
        frequency = frequency + increment;
        t = t + 1;
    }
    data
}

/// The volume that a harmonic of amplitude `amplitude` gets in a set whose
/// amplitudes add up to `total`: `volume * amplitude / total`, rounded down.
pub open spec fn effective_volume(amplitude: int, volume: int, total: int) -> int {
    amplitude * volume / total
}

/// The exact sum, at step `t`, of the tones of a harmonic set, each at its
/// effective volume.
pub open spec fn harmonic_sum(hs: Seq<Harmonic>, total: int, t: int, volume: int, sampling_rate: int) -> int
    decreases hs.len(),
{
    if hs.len() == 0 {
        0
    } else {
        harmonic_sum(hs.drop_last(), total, t, volume, sampling_rate) + tone_value(
            hs.last().frequency as int,
            t,
            effective_volume(hs.last().amplitude as int, volume, total),
            sampling_rate,
        )
    }
}

/// Sample `t` of a superposition: the sum of the harmonics' tones, limited
/// to `i16`.
pub open spec fn harmonics_value(hs: Seq<Harmonic>, t: int, volume: int, sampling_rate: int) -> int {
    clamp_i16(harmonic_sum(hs, amplitude_sum(hs), t, volume, sampling_rate))
}

/// The sum of the effective volumes of a harmonic set.
pub open spec fn effective_volume_sum(hs: Seq<Harmonic>, volume: int, total: int) -> int
    decreases hs.len(),
{
    if hs.len() == 0 {
        0
    } else {
        effective_volume_sum(hs.drop_last(), volume, total) + effective_volume(
            hs.last().amplitude as int,
            volume,
            total,
        )
    }
}

/// A tone never exceeds its volume.
proof fn lemma_tone_bound(frequency: int, t: int, volume: int, sampling_rate: int)
    requires
        0 <= frequency,
        0 <= t,
        0 <= volume <= u16::MAX,
        0 < sampling_rate,
    ensures
        -volume <= tone_value(frequency, t, volume, sampling_rate) <= volume,
{
    let num = frequency * t;
    assert(0 <= frequency * t) by (nonlinear_arith)
        requires
            0 <= frequency,
            0 <= t,
    ;
    let reduced = num % sampling_rate;
    assert(0 <= reduced < sampling_rate);
    assert(0 <= reduced * FULL_TURN / sampling_rate < FULL_TURN) by (nonlinear_arith)
        requires
            0 <= reduced < sampling_rate,
    ;
    lemma_sine_sample_bound(turn_angle(num, sampling_rate), volume);
}

/// The tones of a set stay within the sum of their volumes.
proof fn lemma_harmonic_sum_bound(hs: Seq<Harmonic>, total: int, t: int, volume: int, sampling_rate: int)
    requires
        0 < total,
        0 <= t,
        0 <= volume,
        0 < sampling_rate,
        amplitude_sum(hs) <= total,
        volume <= u16::MAX,
    ensures
        -effective_volume_sum(hs, volume, total) <= harmonic_sum(hs, total, t, volume, sampling_rate)
            <= effective_volume_sum(hs, volume, total),
        effective_volume_sum(hs, volume, total) * total <= amplitude_sum(hs) * volume,
    decreases hs.len(),
{
    if hs.len() > 0 {
        let rest = hs.drop_last();
        lemma_amplitude_sum_nonneg(rest);
        lemma_harmonic_sum_bound(rest, total, t, volume, sampling_rate);
        let a = hs.last().amplitude as int;
        let e = effective_volume(a, volume, total);
        assert(e * total <= a * volume && 0 <= e) by (nonlinear_arith)
            requires
                e == a * volume / total,
                0 < total,
                0 <= a,
                0 <= volume,
        ;
        assert(e <= volume) by (nonlinear_arith)
            requires
                e * total <= a * volume,
                a <= total,
                0 < total,
                0 <= volume,
        ;
        lemma_tone_bound(hs.last().frequency as int, t, e, sampling_rate);
        assert((effective_volume_sum(rest, volume, total) + e) * total <= (amplitude_sum(rest) + a)
            * volume) by (nonlinear_arith)
            requires
                effective_volume_sum(rest, volume, total) * total <= amplitude_sum(rest) * volume,
                e * total <= a * volume,
        ;
    }
}

/// The sum of the amplitudes grows with the prefix taken.
proof fn lemma_amplitude_prefix(hs: Seq<Harmonic>, j: int)
    requires
        0 <= j <= hs.len(),
    ensures
        amplitude_sum(hs.subrange(0, j)) <= amplitude_sum(hs),
        j < hs.len() ==> amplitude_sum(hs.subrange(0, j + 1)) == amplitude_sum(hs.subrange(0, j))
            + hs[j].amplitude,
    decreases hs.len() - j,
{
    if j < hs.len() {
        assert(hs.subrange(0, j + 1).drop_last() == hs.subrange(0, j));
        lemma_amplitude_prefix(hs, j + 1);
    } else {
        assert(hs.subrange(0, j) == hs);
    }
}

/// The effective volume of a harmonic, computed on machine integers.
fn harmonic_volume(amplitude: u64, volume: u16, total: u128) -> (r: u16)
    requires
        0 < total,
        amplitude <= total,
    ensures
        r as int == effective_volume(amplitude as int, volume as int, total as int),
{
    assert((amplitude as u128) * (volume as u128) <= u64::MAX * u16::MAX) by (nonlinear_arith)
        requires
            amplitude <= u64::MAX,
            volume <= u16::MAX,
    ;
    let scaled = (amplitude as u128) * (volume as u128) / total;
    assert(scaled <= volume) by (nonlinear_arith)
        requires
            scaled == (amplitude as int) * (volume as int) / (total as int),
            amplitude <= total,
            0 < total,
    ;
    scaled as u16
}

/// A superposition of harmonics. Each harmonic is generated as a tone at
/// the volume `volume * amplitude / total`, rounded down, where `total` is
/// the sum of the amplitudes; the tones are added sample by sample in a wider
/// integer, starting from the first harmonic, and the sum is limited to
/// `i16`. Fails with `NoHarmonics` on an
/// empty set and with `InvalidHarmonicAmplitude` when the amplitudes add up to
/// zero, before any sample is generated.
pub fn gen_harmonics(
    harmonics: &Vec<Harmonic>,
    number_samples: u32,
    number_channels: u8,
    volume: u16,
    sampling_rate: u32,
) -> (r: Result<Vec<i16>, WavGenError>)
    requires
        sampling_rate > 0,
    ensures
        harmonics@.len() == 0 ==> r == Err::<Vec<i16>, WavGenError>(WavGenError::NoHarmonics),
        harmonics@.len() > 0 && amplitude_sum(harmonics@) == 0 ==> r == Err::<
            Vec<i16>,
            WavGenError,
        >(WavGenError::InvalidHarmonicAmplitude),
        r is Ok <==> amplitude_sum(harmonics@) > 0,
        r matches Ok(data) ==> laid_out(
            data@,
            number_samples as int,
            number_channels,
            |t: int| harmonics_value(harmonics@, t, volume as int, sampling_rate as int),
        ),
{
    let set = match normalise_harmonics(harmonics) {
        Ok(set) => set,
        Err(e) => {
            return Err(e);
        },
    };
    let ghost hs = harmonics@;
    let ghost total = set.total as int;
    let ghost c = channel_count(number_channels);
    let ghost len = number_samples * c;
    let mut sums = Vec::<i32>::new();
    let mut k: usize = 0;
    while k < set.harmonics.len()
        invariant
            set.wf(),
            set.harmonics@ == hs,
            total == set.total,
            sampling_rate > 0,
            c == channel_count(number_channels),
            len == number_samples * c,
            k <= hs.len(),
            k == 0 ==> sums@.len() == 0,
            k > 0 ==> sums@.len() == len,
            k > 0 ==> forall|i: int|
                0 <= i < len ==> #[trigger] sums@[i] as int == harmonic_sum(
                    hs.subrange(0, k as int),
                    total,
                    i / c,
                    volume as int,
                    sampling_rate as int,
                ),
        decreases hs.len() - k,
    {
        let h = set.harmonics[k];
        proof {
            lemma_amplitude_prefix(hs, k as int);
            lemma_amplitude_prefix(hs, k + 1);
            lemma_amplitude_sum_nonneg(hs.subrange(0, k as int));
            assert(hs.subrange(0, k + 1).drop_last() == hs.subrange(0, k as int));
            assert(hs.subrange(0, k + 1).last() == h);
        }
        let layer_volume = harmonic_volume(h.amplitude, volume, set.total);
        let layer = gen_sine_wave(h.frequency, number_samples, number_channels, layer_volume, sampling_rate);
        let ghost values = |t: int| tone_value(h.frequency as int, t, layer_volume as int, sampling_rate as int);
        assert(laid_out(layer@, number_samples as int, number_channels, values));
        let ghost before = sums@;
        if k == 0 {
            let mut i: usize = 0;
            while i < layer.len()
                invariant
                    i <= layer@.len(),
                    layer@.len() == len,
                    sums@.len() == i,
                    forall|j: int| 0 <= j < i ==> #[trigger] sums@[j] == layer@[j] as i32,
                decreases layer@.len() - i,
            {
                sums.push(layer[i] as i32);
                i = i + 1;
            }
        } else {
            let mut i: usize = 0;
            while i < layer.len()
                invariant
                    0 < k < hs.len(),
                    i <= layer@.len(),
                    layer@.len() == len,
                    sums@.len() == len,
                    before.len() == len,
                    sampling_rate > 0,
                    total == set.total,
                    0 < total,
                    amplitude_sum(hs.subrange(0, k + 1)) <= total,
                    c == 1 || c == 2,
                    forall|j: int| 0 <= j < i ==> #[trigger] sums@[j] == before[j] + layer@[j],
                    forall|j: int| i <= j < len ==> #[trigger] sums@[j] == before[j],
                    forall|j: int|
                        0 <= j < len ==> #[trigger] before[j] as int == harmonic_sum(
                            hs.subrange(0, k as int),
                            total,
                            j / c,
                            volume as int,
                            sampling_rate as int,
                        ),
                    forall|j: int|
                        0 <= j < len ==> #[trigger] layer@[j] as int == values(j / c),
                    values == (|t: int| tone_value(h.frequency as int, t, layer_volume as int, sampling_rate as int)),
                    hs.subrange(0, k + 1).drop_last() == hs.subrange(0, k as int),
                    hs.subrange(0, k + 1).last() == h,
                    layer_volume as int == effective_volume(h.amplitude as int, volume as int, total),
                decreases layer@.len() - i,
            {
                proof {
                    let t = (i as int) / c;
                    assert(0 <= t);
                    lemma_harmonic_sum_bound(hs.subrange(0, k + 1), total, t as int, volume as int, sampling_rate as int);
                    assert(effective_volume_sum(hs.subrange(0, k + 1), volume as int, total) <= volume) by (nonlinear_arith)
                        requires
                            effective_volume_sum(hs.subrange(0, k + 1), volume as int, total) * total
                                <= amplitude_sum(hs.subrange(0, k + 1)) * volume,
                            amplitude_sum(hs.subrange(0, k + 1)) <= total,
                            0 < total,
                            0 <= volume,
                    ;
                    assert(layer@[i as int] as int == values(t));
                    assert(harmonic_sum(hs.subrange(0, k + 1), total, t, volume as int, sampling_rate as int)
                        == harmonic_sum(hs.subrange(0, k as int), total, t, volume as int, sampling_rate as int)
                        + values(t));
                    assert(sums@[i as int] as int + layer@[i as int] as int == harmonic_sum(
                        hs.subrange(0, k + 1),
                        total,
                        t as int,
                        volume as int,
                        sampling_rate as int,
                    ));
                }
                let sum = sums[i] + layer[i] as i32;
                sums.set(i, sum);
                i = i + 1;
            }
        }
        proof {
            assert forall|i: int| 0 <= i < len implies #[trigger] sums@[i] as int == harmonic_sum(
                hs.subrange(0, k + 1),
                total,
                i / c,
                volume as int,
                sampling_rate as int,
            ) by {
                assert(layer@[i] as int == values(i / c));
                assert(harmonic_sum(hs.subrange(0, k + 1), total, i / c, volume as int, sampling_rate as int)
                    == harmonic_sum(hs.subrange(0, k as int), total, i / c, volume as int, sampling_rate as int)
                    + values(i / c));
                if k == 0 {
                    assert(hs.subrange(0, 0).len() == 0);
                }
            }
        }
        k = k + 1;
    }
    proof {
        assert(hs.subrange(0, k as int) == hs);
    }
    let mut data = Vec::<i16>::new();
    let mut i: usize = 0;
    while i < sums.len()
        invariant
            i <= sums@.len(),
            sums@.len() == len,
            data@.len() == i,
            forall|j: int| 0 <= j < i ==> #[trigger] data@[j] as int == clamp_i16(sums@[j] as int),
        decreases sums@.len() - i,
    {
        let s = sums[i];
        let v: i16 = if s > i16::MAX as i32 {
            i16::MAX
        } else if s < i16::MIN as i32 {
            i16::MIN
        } else {
            s as i16
        };
        data.push(v);
        i = i + 1;
    }
    Ok(data)
}

/// Every tone and every sweep starts at zero: sample 0 is 0 for any
/// frequency and volume.
pub proof fn lemma_starts_at_zero(
    frequency: int,
    start: int,
    finish: int,
    number_samples: int,
    volume: int,
    sampling_rate: int,
)
    requires
        0 <= volume <= u16::MAX,
        0 < sampling_rate,
        0 < number_samples,
    ensures
        tone_value(frequency, 0, volume, sampling_rate) == 0,
        sweep_value(start, finish, number_samples, 0, volume, sampling_rate) == 0,
{
    lemma_sine_sample_zero(volume);
    assert(frequency * 0 == 0);
    assert(0 * sweep_frequency(start, finish, number_samples, 0) == 0);
    assert(0 < number_samples * sampling_rate) by (nonlinear_arith)
        requires
            0 < number_samples,
            0 < sampling_rate,
    ;
    assert(turn_angle(0, sampling_rate) == 0);
    assert(turn_angle(0, number_samples * sampling_rate) == 0);
}

/// The sweep's frequency starts at `start`, grows by
/// `(finish - start) / number_samples` at every step, reaches `finish`
/// exactly after `number_samples` steps and stays between the two ends up to
/// there. Frequencies are in units of `1 / number_samples` Hz.
pub proof fn lemma_sweep_ends(start: int, finish: int, number_samples: nat)
    requires
        0 <= start,
        0 <= finish,
    ensures
        sweep_frequency(start, finish, number_samples as int, 0) == start * number_samples,
        forall|t: nat|
            #[trigger] sweep_frequency(start, finish, number_samples as int, t + 1) - sweep_frequency(
                start,
                finish,
                number_samples as int,
                t,
            ) == finish - start,
        sweep_frequency(start, finish, number_samples as int, number_samples) == finish
            * number_samples,
        forall|t: nat|
            t <= number_samples ==> {
                let f = #[trigger] sweep_frequency(start, finish, number_samples as int, t);
                &&& (start <= finish ==> start * number_samples <= f <= finish * number_samples)
                &&& (finish <= start ==> finish * number_samples <= f <= start * number_samples)
            },
{
    assert forall|t: nat|
        #[trigger] sweep_frequency(start, finish, number_samples as int, t + 1) - sweep_frequency(
            start,
            finish,
            number_samples as int,
            t,
        ) == finish - start by {
        assert(((t + 1) as nat - 1) as nat == t);
    }
    lemma_sweep_frequency(start, finish, number_samples as int, number_samples);
    assert(start * (number_samples - number_samples) == 0);
    assert forall|t: nat| t <= number_samples implies {
        let f = #[trigger] sweep_frequency(start, finish, number_samples as int, t);
        &&& (start <= finish ==> start * number_samples <= f <= finish * number_samples)
        &&& (finish <= start ==> finish * number_samples <= f <= start * number_samples)
    } by {
        lemma_sweep_frequency(start, finish, number_samples as int, t);
        let n = number_samples as int;
        assert(start <= finish ==> start * n <= start * (n - t) + finish * t <= finish * n)
            by (nonlinear_arith)
            requires
                0 <= t <= n,
        ;
        assert(finish <= start ==> finish * n <= start * (n - t) + finish * t <= start * n)
            by (nonlinear_arith)
            requires
                0 <= t <= n,
        ;
    }
}

/// Taking one harmonic out of a set takes its share out of both sums.
proof fn lemma_sums_remove(
    hs: Seq<Harmonic>,
    k: int,
    total: int,
    t: int,
    volume: int,
    sampling_rate: int,
)
    requires
        0 <= k < hs.len(),
    ensures
        amplitude_sum(hs) == amplitude_sum(hs.remove(k)) + hs[k].amplitude,
        harmonic_sum(hs, total, t, volume, sampling_rate) == harmonic_sum(
            hs.remove(k),
            total,
            t,
            volume,
            sampling_rate,
        ) + tone_value(
            hs[k].frequency as int,
            t,
            effective_volume(hs[k].amplitude as int, volume, total),
            sampling_rate,
        ),
    decreases hs.len(),
{
    if k == hs.len() - 1 {
        assert(hs.remove(k) == hs.drop_last());
    } else {
        let rest = hs.drop_last();
        lemma_sums_remove(rest, k, total, t, volume, sampling_rate);
        assert(hs.remove(k).drop_last() == rest.remove(k));
        assert(hs.remove(k).last() == hs.last());
    }
}

proof fn lemma_sums_permutation(
    a: Seq<Harmonic>,
    b: Seq<Harmonic>,
    total: int,
    t: int,
    volume: int,
    sampling_rate: int,
)
    requires
        a.to_multiset() == b.to_multiset(),
    ensures
        amplitude_sum(a) == amplitude_sum(b),
        harmonic_sum(a, total, t, volume, sampling_rate) == harmonic_sum(
            b,
            total,
            t,
            volume,
            sampling_rate,
        ),
    decreases a.len(),
{
    broadcast use vstd::seq_lib::group_to_multiset_ensures;

    if a.len() == 0 {
        assert(a.to_multiset().len() == 0);
        assert(b.to_multiset().len() == b.len());
        assert(b == Seq::<Harmonic>::empty());
    } else {
        let x = a.last();
        let rest = a.drop_last();
        assert(a == rest.push(x));
        assert(a.contains(x)) by {
            assert(a[a.len() - 1] == x);
        }
        assert(b.to_multiset().count(x) > 0);
        assert(b.contains(x));
        let k = choose|k: int| 0 <= k < b.len() && b[k] == x;
        assert(rest.to_multiset() == a.to_multiset().remove(x)) by {
            assert(a.to_multiset() =~= rest.to_multiset().insert(x));
            assert(rest.to_multiset().insert(x).remove(x) =~= rest.to_multiset());
        }
        assert(b.remove(k).to_multiset() =~= b.to_multiset().remove(x));
        lemma_sums_permutation(rest, b.remove(k), total, t, volume, sampling_rate);
        lemma_sums_remove(b, k, total, t, volume, sampling_rate);
    }
}

/// The order of the harmonics does not matter: any reordering of a set gives
/// the same samples.
pub proof fn lemma_harmonics_order_free(
    harmonics: Seq<Harmonic>,
    reordered: Seq<Harmonic>,
    t: int,
    volume: int,
    sampling_rate: int,
)
    requires
        harmonics.to_multiset() == reordered.to_multiset(),
    ensures
        harmonics_value(harmonics, t, volume, sampling_rate) == harmonics_value(
            reordered,
            t,
            volume,
            sampling_rate,
        ),
{
    let total = amplitude_sum(harmonics);
    lemma_sums_permutation(harmonics, reordered, total, t, volume, sampling_rate);
}

} // verus!
