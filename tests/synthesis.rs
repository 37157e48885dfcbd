use wav_gen::{
    gen_harmonics, gen_sine_wave, gen_sweep_wave, generate, harmonics_from_records,
    normalise_harmonics, quarter_sine, AMPLITUDE_UNIT,
    read_harmonics, samples_for_duration, samples_for_length, sine_sample, sync_period,
    GeneratedSize, Harmonic, WavGenError, Waveform,
};

fn reference_tone(frequency: u32, t: u32, volume: u16, sampling_rate: u32) -> i32 {
    let x = volume as f64
        * (2.0 * std::f64::consts::PI * frequency as f64 * t as f64 / sampling_rate as f64).sin();
    (x as i16) as i32
}

fn harmonic(frequency: u32, amplitude: u64) -> Harmonic {
    Harmonic { frequency, amplitude }
}

#[test]
fn quarter_sine_ends() {
    assert_eq!(quarter_sine(0), 0);
    assert_eq!(quarter_sine(1 << 30), 1 << 30);
    // sin(pi / 4) = 0.70710678...
    let half = quarter_sine(1 << 29) as f64 / (1u64 << 30) as f64;
    assert!((half - std::f64::consts::FRAC_1_SQRT_2).abs() < 1e-8);
}

#[test]
fn sine_sample_quadrants() {
    assert_eq!(sine_sample(0, 1000), 0);
    assert_eq!(sine_sample(1 << 30, 1000), 1000);
    assert_eq!(sine_sample(1 << 31, 1000), 0);
    assert_eq!(sine_sample(3 << 30, 1000), -1000);
    // the volume is clamped to the range of i16
    assert_eq!(sine_sample(1 << 30, 65535), 32767);
    assert_eq!(sine_sample(3 << 30, 65535), -32768);
}

#[test]
fn tone_starts_at_zero() {
    for frequency in [1u32, 432, 643, 2000, 30000] {
        for volume in [0u16, 1, 1000, 65535] {
            let data = gen_sine_wave(frequency, 3, 1, volume, 44100);
            assert_eq!(data[0], 0);
        }
    }
}

#[test]
fn tone_values() {
    let data = gen_sine_wave(643, 12, 1, 1000, 44100);
    assert_eq!(data, vec![0, 91, 182, 271, 358, 442, 522, 598, 669, 734, 793, 845]);
}

#[test]
fn tone_matches_truncated_sine() {
    for (frequency, volume) in [(432u32, 1000u16), (643, 65535), (2000, 20000)] {
        let data = gen_sine_wave(frequency, 2000, 1, volume, 44100);
        for (t, &v) in data.iter().enumerate() {
            let expected = reference_tone(frequency, t as u32, volume, 44100);
            assert!((v as i32 - expected).abs() <= 1, "t = {}: {} against {}", t, v, expected);
        }
    }
}

#[test]
fn tone_stereo_repeats_each_sample() {
    let mono = gen_sine_wave(1000, 50, 1, 1000, 8000);
    let stereo = gen_sine_wave(1000, 50, 2, 1000, 8000);
    assert_eq!(stereo.len(), 100);
    for t in 0..50 {
        assert_eq!(stereo[2 * t], mono[t]);
        assert_eq!(stereo[2 * t + 1], mono[t]);
    }
    // an exact period: 8 samples of a 1000 Hz tone at 8000 Hz
    assert_eq!(&mono[0..8], &[0, 707, 1000, 707, 0, -707, -1000, -707]);
}

#[test]
fn tone_without_samples() {
    assert!(gen_sine_wave(440, 0, 2, 1000, 44100).is_empty());
}

#[test]
fn sweep_values() {
    let data = gen_sweep_wave(500, 1500, 512, 2, 1000, 44100);
    assert_eq!(data.len(), 1024);
    assert_eq!(
        &data[0..20],
        &[0, 0, 71, 71, 143, 143, 214, 214, 285, 285, 355, 355, 423, 423, 490, 490, 554, 554, 616, 616]
    );
}

#[test]
fn sweep_follows_the_linear_frequency() {
    let (start, finish, n) = (100u32, 2000u32, 1000u32);
    let data = gen_sweep_wave(start, finish, n, 1, 1000, 44100);
    assert_eq!(data[0], 0);
    for t in 0..n {
        let frequency = start as f64 + t as f64 * (finish as f64 - start as f64) / n as f64;
        let x = 1000.0 * (2.0 * std::f64::consts::PI * t as f64 * frequency / 44100.0).sin();
        let expected = (x as i16) as i32;
        assert!((data[t as usize] as i32 - expected).abs() <= 1);
    }
}

#[test]
fn sweep_downwards_and_flat() {
    let down = gen_sweep_wave(2000, 100, 500, 1, 1000, 44100);
    assert_eq!(down.len(), 500);
    assert_eq!(down[0], 0);
    // a sweep between equal frequencies is a tone
    let flat = gen_sweep_wave(441, 441, 10, 1, 1000, 44100);
    for t in 0..10u32 {
        let x = 1000.0 * (2.0 * std::f64::consts::PI * (t * 441) as f64 / 44100.0).sin();
        assert!((flat[t as usize] as i32 - (x as i16) as i32).abs() <= 1);
    }
}

#[test]
fn explicit_count_stereo_odd_is_invalid() {
    assert_eq!(samples_for_length(1025, 2), Err(WavGenError::InvalidLength));
    assert_eq!(samples_for_length(1025, 1), Ok(1025));
    assert_eq!(samples_for_length(1024, 2), Ok(512));
    assert_eq!(samples_for_length(0, 2), Ok(0));
}

#[test]
fn duration_count() {
    assert_eq!(samples_for_duration(5, 44100), 220500);
    assert_eq!(samples_for_duration(0, 44100), 0);
}

#[test]
fn sync_cycle_of_two_tones() {
    assert_eq!(sync_period(&vec![100, 250], 1000), Ok(20));
    let cycle = sync_period(&vec![100, 250], 1000).unwrap();
    assert_eq!(cycle % 10, 0);
    assert_eq!(cycle % 4, 0);
}

#[test]
fn sync_cycle_cases() {
    assert_eq!(sync_period(&vec![432], 44100), Ok(102));
    assert_eq!(sync_period(&vec![500, 700, 750], 44100), Ok(882));
    assert_eq!(sync_period(&vec![], 44100), Ok(0));
    // a frequency above rate * 20000 has a period of zero
    assert_eq!(sync_period(&vec![100, 1_000_000_000], 44100), Ok(0));
    assert_eq!(sync_period(&vec![100, 0], 44100), Err(WavGenError::UnsupportedLengthPolicy));
    assert_eq!(
        sync_period(&vec![7, 11, 13, 17, 19, 23], 44100),
        Err(WavGenError::CycleTooLong)
    );
}

const P7_TABLE: &[u8] = b"frequency,amplitude\n500,0.3\n700,0.2\n750,0.1\n";

#[test]
fn harmonics_file_end_to_end() {
    let harmonics = read_harmonics("harmonics.csv", P7_TABLE).unwrap();
    assert_eq!(
        harmonics,
        vec![harmonic(500, 300000), harmonic(700, 200000), harmonic(750, 100000)]
    );
    let set = normalise_harmonics(&harmonics).unwrap();
    assert_eq!(set.total, 600000);
    let normalised: Vec<f64> =
        set.harmonics.iter().map(|h| h.amplitude as f64 / set.total as f64).collect();
    assert!((normalised[0] - 0.5).abs() < 1e-12);
    assert!((normalised[1] - 1.0 / 3.0).abs() < 1e-12);
    assert!((normalised[2] - 1.0 / 6.0).abs() < 1e-12);

    let data = gen_harmonics(&harmonics, 100, 1, 1000, 44100).unwrap();
    assert_eq!(data.len(), 100);
    assert_eq!(data[0], 0);
    assert_eq!(&data[0..12], &[0, 85, 170, 256, 337, 417, 493, 565, 632, 695, 750, 801]);
    for t in 0..100u32 {
        let expected = reference_tone(500, t, 500, 44100)
            + reference_tone(700, t, 333, 44100)
            + reference_tone(750, t, 166, 44100);
        assert!((data[t as usize] as i32 - expected).abs() <= 1);
    }
}

#[test]
fn normalised_amplitudes_sum_to_one() {
    let harmonics = vec![harmonic(100, 3), harmonic(200, 5), harmonic(300, 11)];
    let set = normalise_harmonics(&harmonics).unwrap();
    let sum: f64 = set.harmonics.iter().map(|h| h.amplitude as f64 / set.total as f64).sum();
    assert!((sum - 1.0).abs() < 1e-5);
    assert_eq!(set.harmonics, harmonics);
    assert_eq!(set.total, 19);
}

#[test]
fn harmonic_order_does_not_matter() {
    let a = vec![harmonic(500, 300000), harmonic(700, 200000), harmonic(750, 100000)];
    let b = vec![harmonic(750, 100000), harmonic(500, 300000), harmonic(700, 200000)];
    let da = gen_harmonics(&a, 300, 2, 20000, 44100).unwrap();
    let db = gen_harmonics(&b, 300, 2, 20000, 44100).unwrap();
    assert_eq!(da, db);
}

#[test]
fn empty_harmonic_set() {
    assert_eq!(gen_harmonics(&vec![], 100, 1, 1000, 44100), Err(WavGenError::NoHarmonics));
    assert!(matches!(normalise_harmonics(&vec![]), Err(WavGenError::NoHarmonics)));
    let empty = read_harmonics("h.csv", b"frequency,amplitude\n").unwrap();
    assert!(empty.is_empty());
    let waveform = Waveform::Harmonics(empty);
    assert_eq!(
        generate(&waveform, GeneratedSize::Cyclic, 2, 1000, 44100),
        Err(WavGenError::NoHarmonics)
    );
}

#[test]
fn zero_amplitudes() {
    let harmonics = vec![harmonic(100, 0), harmonic(200, 0)];
    assert_eq!(
        gen_harmonics(&harmonics, 10, 1, 1000, 44100),
        Err(WavGenError::InvalidHarmonicAmplitude)
    );
    assert!(matches!(
        normalise_harmonics(&harmonics),
        Err(WavGenError::InvalidHarmonicAmplitude)
    ));
}

#[test]
fn harmonics_are_clamped_to_i16() {
    let harmonics = vec![harmonic(11025, 1), harmonic(11025, 1)];
    // each tone peaks at 32767 in its own buffer; the sum is clamped
    let data = gen_harmonics(&harmonics, 4, 1, 65535, 44100).unwrap();
    assert_eq!(data, vec![0, 32767, 0, -32768]);
}

#[test]
fn read_harmonics_formats() {
    let table = b"frequency,amplitude\n 500 , 0.3 \n+700,+.25\n750,2.\n800,0.1234567\n";
    let harmonics = read_harmonics("h.csv", table).unwrap();
    assert_eq!(
        harmonics,
        vec![
            harmonic(500, 300000),
            harmonic(700, 250000),
            harmonic(750, 2000000),
            harmonic(800, 123456),
        ]
    );
}

#[test]
fn read_harmonics_parse_errors() {
    let bad_frequency = b"frequency,amplitude\n500,0.3\n500.0,0.2\n";
    assert_eq!(read_harmonics("h.csv", bad_frequency), Err(WavGenError::HarmonicParseError(2)));
    let bad_amplitude = b"frequency,amplitude\n500,0.3\n700,0.2\n750,1e\n";
    assert_eq!(read_harmonics("h.csv", bad_amplitude), Err(WavGenError::HarmonicParseError(3)));
    let negative = b"frequency,amplitude\n500,-0.3\n";
    assert_eq!(read_harmonics("h.csv", negative), Err(WavGenError::HarmonicParseError(1)));
    let empty_field = b"frequency,amplitude\n500,\n";
    assert_eq!(read_harmonics("h.csv", empty_field), Err(WavGenError::HarmonicParseError(1)));
    let too_big = b"frequency,amplitude\n4294967296,1\n";
    assert_eq!(read_harmonics("h.csv", too_big), Err(WavGenError::HarmonicParseError(1)));
}

#[test]
fn read_harmonics_unreadable_table() {
    // a record with more fields than the header
    let table = b"frequency,amplitude\n500,0.3,9\n";
    assert_eq!(
        read_harmonics("in/h.csv", table),
        Err(WavGenError::ReadError(String::from("in/h.csv")))
    );
    let not_utf8 = b"frequency,amplitude\n500,\xff\n";
    assert_eq!(
        read_harmonics("h.csv", not_utf8),
        Err(WavGenError::ReadError(String::from("h.csv")))
    );
}

#[test]
fn generate_policies() {
    let sine = Waveform::Sine { frequency: 250 };
    let data = generate(&sine, GeneratedSize::Cyclic, 1, 1000, 1000).unwrap();
    assert_eq!(data, vec![0, 1000, 0, -1000]);
    let data = generate(&sine, GeneratedSize::NumberSamples(6), 2, 1000, 1000).unwrap();
    assert_eq!(data, vec![0, 0, 1000, 1000, 0, 0, -1000, -1000, 0, 0, 1000, 1000]);

    let sweep = Waveform::Sweep { start: 100, finish: 2000 };
    assert_eq!(
        generate(&sweep, GeneratedSize::Cyclic, 2, 1000, 44100),
        Err(WavGenError::UnsupportedLengthPolicy)
    );
    let data = generate(&sweep, GeneratedSize::NumberSamples(100), 2, 1000, 44100).unwrap();
    assert_eq!(data, gen_sweep_wave(100, 2000, 100, 2, 1000, 44100));

    let harmonics = Waveform::Harmonics(vec![harmonic(100, 1), harmonic(250, 1)]);
    let data = generate(&harmonics, GeneratedSize::Cyclic, 1, 1000, 1000).unwrap();
    assert_eq!(data.len(), 20);
    assert_eq!(data, gen_harmonics(&vec![harmonic(100, 1), harmonic(250, 1)], 20, 1, 1000, 1000).unwrap());

    let silent = Waveform::Sine { frequency: 0 };
    assert_eq!(
        generate(&silent, GeneratedSize::Cyclic, 1, 1000, 1000),
        Err(WavGenError::UnsupportedLengthPolicy)
    );
    let zero = Waveform::Harmonics(vec![harmonic(100, 0)]);
    assert_eq!(
        generate(&zero, GeneratedSize::Cyclic, 1, 1000, 1000),
        Err(WavGenError::InvalidHarmonicAmplitude)
    );
}

fn record(fields: &[&str]) -> Vec<Vec<char>> {
    fields.iter().map(|f| f.chars().collect()).collect()
}

#[test]
fn harmonics_from_parsed_records() {
    let records = vec![
        record(&["500", "0.3"]),
        record(&["\u{a0}700\t", "\u{3000}0.2 ", "ignored"]),
    ];
    assert_eq!(
        harmonics_from_records(&records),
        Ok(vec![harmonic(500, 300000), harmonic(700, 200000)])
    );
    let short = vec![record(&["500", "0.3"]), record(&["700"])];
    assert_eq!(harmonics_from_records(&short), Err(WavGenError::HarmonicParseError(2)));
    let bad = vec![record(&["500", "."]), record(&["x", "1"])];
    assert_eq!(harmonics_from_records(&bad), Err(WavGenError::HarmonicParseError(1)));
    assert_eq!(harmonics_from_records(&vec![]), Ok(vec![]));
}

fn amplitude(text: &str) -> Result<u64, WavGenError> {
    let records = vec![record(&["100", text])];
    harmonics_from_records(&records).map(|h| h[0].amplitude)
}

#[test]
fn amplitudes_with_exponents() {
    assert_eq!(amplitude("1e3"), Ok(1000 * AMPLITUDE_UNIT));
    assert_eq!(amplitude("1e-3"), Ok(1000));
    assert_eq!(amplitude("2.5E+2"), Ok(250 * AMPLITUDE_UNIT));
    assert_eq!(amplitude("1.5e-1"), Ok(150000));
    assert_eq!(amplitude(".5e1"), Ok(5 * AMPLITUDE_UNIT));
    assert_eq!(amplitude("5.e0"), Ok(5 * AMPLITUDE_UNIT));
    assert_eq!(amplitude("1e-7"), Ok(0));
    assert_eq!(amplitude("123456789e-12"), Ok(123));
    assert_eq!(amplitude("0e99999999999999999999999"), Ok(0));
    assert_eq!(amplitude("3e-99999999999999999999999"), Ok(0));
    assert_eq!(amplitude("1e13"), Ok(10_000_000_000_000 * AMPLITUDE_UNIT));
    for bad in ["1e99999999999999999999999", "1e20", "1e", "1e+", "e5", ".e1", "1e1.5", "-1e3", "inf", "NaN"] {
        assert_eq!(amplitude(bad), Err(WavGenError::HarmonicParseError(1)), "{}", bad);
    }
}
