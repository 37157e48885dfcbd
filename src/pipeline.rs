//! From a waveform and a length policy to a sample buffer.
use vstd::prelude::*;
use crate::error::WavGenError;
use crate::generate::{
    gen_harmonics, gen_sine_wave, gen_sweep_wave, harmonics_value, laid_out, sweep_value,
    tone_value,
};
use crate::harmonics::{amplitude_sum, lemma_amplitude_sum_nonneg, normalise_harmonics, Harmonic};
use crate::length::{sync_cycle, sync_period};

verus! {

/// How long the generated signal is.
#[derive(Debug, Clone, Copy, PartialEq, Eq)]
pub enum GeneratedSize {
    /// This many samples per channel.
    NumberSamples(u32),
    /// Exactly one synchronised cycle of the signal's tones.
    Cyclic,
}

/// The signal to generate.
#[derive(Debug)]
pub enum Waveform {
    /// A sine tone of this frequency, in hertz.
    Sine { frequency: u32 },
    /// A sweep from `start` to `finish` hertz.
    Sweep { start: u32, finish: u32 },
    /// A superposition of harmonics.
    Harmonics(Vec<Harmonic>),
}

/// The frequencies of a harmonic set, in order.
pub open spec fn frequencies_of(hs: Seq<Harmonic>) -> Seq<u32> {
    hs.map_values(|h: Harmonic| h.frequency)
}

/// The outcome of asking for one synchronised cycle of these tones.
pub open spec fn cycle_count(frequencies: Seq<u32>, sampling_rate: nat) -> Result<u32, WavGenError> {
    if exists|i: int| 0 <= i < frequencies.len() && frequencies[i] == 0 {
        Err(WavGenError::UnsupportedLengthPolicy)
    } else if sync_cycle(frequencies, sampling_rate) > u32::MAX {
        Err(WavGenError::CycleTooLong)
    } else {
        Ok(sync_cycle(frequencies, sampling_rate) as u32)
    }
}

/// The number of samples per channel for a waveform, or why there is none.
/// A set of harmonics is checked first: empty, then amplitudes that add up to
/// zero.
pub open spec fn sample_count(waveform: Waveform, size: GeneratedSize, sampling_rate: nat) -> Result<
    u32,
    WavGenError,
> {
    match waveform {
        Waveform::Sine { frequency } => match size {
            GeneratedSize::NumberSamples(n) => Ok(n),
            GeneratedSize::Cyclic => cycle_count(seq![frequency], sampling_rate),
        },
        Waveform::Sweep { .. } => match size {
            GeneratedSize::NumberSamples(n) => Ok(n),
            GeneratedSize::Cyclic => Err(WavGenError::UnsupportedLengthPolicy),
        },
        Waveform::Harmonics(hs) => if hs@.len() == 0 {
            Err(WavGenError::NoHarmonics)
        } else if amplitude_sum(hs@) == 0 {
            Err(WavGenError::InvalidHarmonicAmplitude)
        } else {
            match size {
                GeneratedSize::NumberSamples(n) => Ok(n),
                GeneratedSize::Cyclic => cycle_count(frequencies_of(hs@), sampling_rate),
            }
        },
    }
}

/// Sample `t` of a waveform that is `number_samples` long.
pub open spec fn waveform_value(
    waveform: Waveform,
    number_samples: int,
    volume: int,
    sampling_rate: int,
) -> spec_fn(int) -> int {
    match waveform {
        Waveform::Sine { frequency } => |t: int|
            tone_value(frequency as int, t, volume, sampling_rate),
        Waveform::Sweep { start, finish } => |t: int|
            sweep_value(start as int, finish as int, number_samples, t, volume, sampling_rate),
        Waveform::Harmonics(hs) => |t: int| harmonics_value(hs@, t, volume, sampling_rate),
    }
}

/// One synchronised cycle of a set of tones, as `cycle_count` has it.
fn cycle_of(frequencies: &Vec<u32>, sampling_rate: u32) -> (r: Result<u32, WavGenError>)
    ensures
        r == cycle_count(frequencies@, sampling_rate as nat),
{
    sync_period(frequencies, sampling_rate)
}

/// Generates a waveform: resolves its length (one synchronised cycle of its
/// tones for `Cyclic`), then runs its generator.
pub fn generate(
    waveform: &Waveform,
    size: GeneratedSize,
    number_channels: u8,
    volume: u16,
    sampling_rate: u32,
) -> (r: Result<Vec<i16>, WavGenError>)
    requires
        sampling_rate > 0,
    ensures
        match sample_count(*waveform, size, sampling_rate as nat) {
            Err(e) => r == Err::<Vec<i16>, WavGenError>(e),
            Ok(n) => (r matches Ok(data) && laid_out(
                data@,
                n as int,
                number_channels,
                waveform_value(*waveform, n as int, volume as int, sampling_rate as int),
            )),
        },
{
    match waveform {
        Waveform::Sine { frequency } => {
            let n = match size {
                GeneratedSize::NumberSamples(n) => n,
                GeneratedSize::Cyclic => {
                    let frequencies = vec![*frequency];
                    assert(frequencies@ == seq![*frequency]);
                    cycle_of(&frequencies, sampling_rate)?
                },
            };
            Ok(gen_sine_wave(*frequency, n, number_channels, volume, sampling_rate))
        },
        Waveform::Sweep { start, finish } => {
            let n = match size {
                GeneratedSize::NumberSamples(n) => n,
                GeneratedSize::Cyclic => {
                    return Err(WavGenError::UnsupportedLengthPolicy);
                },
            };
            Ok(gen_sweep_wave(*start, *finish, n, number_channels, volume, sampling_rate))
        },
        Waveform::Harmonics(harmonics) => {
            // an empty set, or one whose amplitudes add up to zero, fails first
            proof {
                lemma_amplitude_sum_nonneg(harmonics@);
            }
            if let Err(e) = normalise_harmonics(harmonics) {
                return Err(e);
            }
            let n = match size {
                GeneratedSize::NumberSamples(n) => n,
                GeneratedSize::Cyclic => {
                    let mut frequencies = Vec::new();
                    let mut i: usize = 0;
                    while i < harmonics.len()
                        invariant
                            i <= harmonics@.len(),
                            frequencies@ == frequencies_of(harmonics@.subrange(0, i as int)),
                        decreases harmonics@.len() - i,
                    {
                        frequencies.push(harmonics[i].frequency);
                        assert(frequencies_of(harmonics@.subrange(0, i + 1)) == frequencies_of(
                            harmonics@.subrange(0, i as int),
                        ).push(harmonics@[i as int].frequency));
                        i = i + 1;
                    }
                    assert(harmonics@.subrange(0, i as int) == harmonics@);
                    cycle_of(&frequencies, sampling_rate)?
                },
            };
            gen_harmonics(harmonics, n, number_channels, volume, sampling_rate)
        },
    }
}

} // verus!
