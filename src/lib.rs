//! Synthesis of short digital-audio test signals: pure tones, linear
//! frequency sweeps and superpositions of harmonics, rendered as signed
//! 16-bit samples, plus the two serialisations of a sample buffer.
pub mod error;
pub mod generate;
pub mod harmonics;
pub mod length;
pub mod output;
pub mod pipeline;
pub mod sine;

pub use error::WavGenError;
pub use generate::{gen_harmonics, gen_sine_wave, gen_sweep_wave};
pub use harmonics::{
    harmonics_from_records, normalise_harmonics, read_harmonics, Harmonic, NormalisedHarmonics,
    AMPLITUDE_UNIT,
};
pub use sine::{quarter_sine, sine_sample};
pub use length::{samples_for_duration, samples_for_length, sync_period, PERIOD_SCALE};
pub use output::{wav_file, write_rust, MAX_WAV_SAMPLES};
pub use pipeline::{generate, GeneratedSize, Waveform};
