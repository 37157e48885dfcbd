use wav_gen::{wav_file, write_rust, WavGenError, MAX_WAV_SAMPLES};

#[test]
fn rust_array_text() {
    let data: Vec<i16> = vec![0, 71, -143, 32767, -32768, 5, 6, 7, 8, 9, 10, -1];
    let text = String::from_utf8(write_rust(&data, "SWEEP_DATA")).unwrap();
    let expected = [
        "pub static SWEEP_DATA: [i16; 12] = [\n",
        "         0,    71,  -143, 32767,-32768,     5,     6,     7,     8,     9,\n",
        "        10,    -1,\n",
        "];\n",
    ]
    .concat();
    assert_eq!(text, expected);
}

#[test]
fn rust_array_text_full_lines() {
    let data: Vec<i16> = (0..10).collect();
    let text = String::from_utf8(write_rust(&data, "DATA")).unwrap();
    let expected = "pub static DATA: [i16; 10] = [\n         0,     1,     2,     3,     4,     5,     6,     7,     8,     9,\n\n];\n";
    assert_eq!(text, expected);
}

#[test]
fn rust_array_text_empty() {
    let text = String::from_utf8(write_rust(&vec![], "EMPTY")).unwrap();
    assert_eq!(text, "pub static EMPTY: [i16; 0] = [\n\n];\n");
}

#[test]
fn wav_container_layout() {
    let data: Vec<i16> = vec![0, 1, -1, 256];
    let bytes = wav_file("out.wav", &data, 2, 44100).unwrap();
    let mut expected: Vec<u8> = Vec::new();
    expected.extend_from_slice(b"RIFF");
    expected.extend_from_slice(&(36u32 + 8).to_le_bytes());
    expected.extend_from_slice(b"WAVEfmt ");
    expected.extend_from_slice(&16u32.to_le_bytes());
    expected.extend_from_slice(&1u16.to_le_bytes());
    expected.extend_from_slice(&2u16.to_le_bytes());
    expected.extend_from_slice(&44100u32.to_le_bytes());
    expected.extend_from_slice(&(44100u32 * 4).to_le_bytes());
    expected.extend_from_slice(&4u16.to_le_bytes());
    expected.extend_from_slice(&16u16.to_le_bytes());
    expected.extend_from_slice(b"data");
    expected.extend_from_slice(&8u32.to_le_bytes());
    expected.extend_from_slice(&[0, 0, 1, 0, 0xff, 0xff, 0, 1]);
    assert_eq!(bytes, expected);
}

#[test]
fn wav_container_mono_empty() {
    let bytes = wav_file("out.wav", &vec![], 1, 8000).unwrap();
    assert_eq!(bytes.len(), 44);
    assert_eq!(&bytes[22..24], &[1, 0]);
    assert_eq!(&bytes[28..32], &16000u32.to_le_bytes());
    assert_eq!(&bytes[40..44], &[0, 0, 0, 0]);
}

#[test]
fn error_messages() {
    assert_eq!(
        WavGenError::ReadError(String::from("h.csv")).message(),
        "could not read file \"h.csv\""
    );
    assert_eq!(
        WavGenError::WriteError(String::from("o.wav")).message(),
        "could not write file \"o.wav\""
    );
    assert_eq!(
        WavGenError::CreateError(String::from("o.wav")).message(),
        "unable to create file \"o.wav\""
    );
    assert_eq!(
        WavGenError::HarmonicParseError(1207).message(),
        "parse error in harmonic file at line 1207"
    );
    assert_eq!(WavGenError::HarmonicParseError(0).message(), "parse error in harmonic file at line 0");
    assert_eq!(WavGenError::NoHarmonics.message(), "no harmonics found");
    assert_eq!(
        WavGenError::InvalidHarmonicAmplitude.message(),
        "the harmonic amplitudes add up to zero"
    );
    assert_eq!(
        WavGenError::InvalidLength.message(),
        "with stereo the length needs to be an even number"
    );
    assert_eq!(
        WavGenError::UnsupportedLengthPolicy.message(),
        "the signal has no synchronised cycle"
    );
    assert_eq!(WavGenError::CycleTooLong.message(), "the synchronised cycle is too long");
}

#[test]
fn error_messages_escape_paths() {
    for path in ["C:\\out.wav", "a \"b\" c", "tab\there\nnew\r\0", "ctl\u{1}\u{1f}\u{7f}\u{85}\u{9f}", "caf\u{e9}.wav"] {
        assert_eq!(
            WavGenError::ReadError(String::from(path)).message(),
            format!("could not read file {:?}", path)
        );
        assert_eq!(
            WavGenError::CreateError(String::from(path)).message(),
            format!("unable to create file {:?}", path)
        );
    }
    assert_eq!(
        WavGenError::WriteError(String::from("C:\\out.wav")).message(),
        "could not write file \"C:\\\\out.wav\""
    );
}

#[test]
fn wav_sample_limit() {
    assert!(36 + 2 * MAX_WAV_SAMPLES as u64 <= u32::MAX as u64);
    assert!(36 + 2 * (MAX_WAV_SAMPLES as u64 + 1) > u32::MAX as u64);
}
