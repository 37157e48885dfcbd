//! The two serialisations of a sample buffer: a 16-bit PCM WAV file, and the
//! text of a Rust array literal holding the samples.
use vstd::prelude::*;
use vstd::string::StringSliceAdditionalSpecFns;
use crate::error::WavGenError;

verus! {

/// The decimal digits of `n`, most significant first.
pub open spec fn digit_bytes(n: nat) -> Seq<u8>
    decreases n,
{
    if n < 10 {
        seq![(48 + n) as u8]
    } else {
        digit_bytes(n / 10) + seq![(48 + n % 10) as u8]
    }
}

/// `v` in decimal, with a `-` when it is negative.
pub open spec fn decimal_bytes(v: int) -> Seq<u8> {
    if v < 0 {
        seq![45u8] + digit_bytes((-v) as nat)
    } else {
        digit_bytes(v as nat)
    }
}

/// `s` right-aligned in a field of `width` bytes, filled with spaces.
pub open spec fn pad_left(s: Seq<u8>, width: nat) -> Seq<u8> {
    if s.len() >= width {
        s
    } else {
        Seq::new((width - s.len()) as nat, |i: int| 32u8) + s
    }
}

/// The text of sample `i`: its value right-aligned in six places and a comma;
/// ten samples to a line, each line indented by four spaces.
pub open spec fn sample_cell(data: Seq<i16>, i: int) -> Seq<u8> {
    let indent = if i % 10 == 0 { seq![32u8, 32u8, 32u8, 32u8] } else { Seq::empty() };
    let end = if i % 10 == 9 { seq![10u8] } else { Seq::empty() };
    indent + pad_left(decimal_bytes(data[i] as int), 6) + seq![44u8] + end
}

/// The text of the first `k` samples.
pub open spec fn array_body(data: Seq<i16>, k: nat) -> Seq<u8>
    decreases k,
{
    if k == 0 {
        Seq::empty()
    } else {
        array_body(data, (k - 1) as nat) + sample_cell(data, k - 1)
    }
}

/// `pub static `
pub open spec fn declaration_start() -> Seq<u8> {
    seq![112u8, 117u8, 98u8, 32u8, 115u8, 116u8, 97u8, 116u8, 105u8, 99u8, 32u8]
}

/// `: [i16; `
pub open spec fn declaration_type() -> Seq<u8> {
    seq![58u8, 32u8, 91u8, 105u8, 49u8, 54u8, 59u8, 32u8]
}

/// `] = [` and a line break.
pub open spec fn declaration_end() -> Seq<u8> {
    seq![93u8, 32u8, 61u8, 32u8, 91u8, 10u8]
}

/// A line break, then `];` and a line break.
pub open spec fn array_end() -> Seq<u8> {
    seq![10u8, 93u8, 59u8, 10u8]
}

/// The Rust source of a static array named `name` that holds `data`:
/// `pub static NAME: [i16; LEN] = [`, the samples ten to a line, a line
/// break and `];`.
pub open spec fn array_text(name: Seq<u8>, data: Seq<i16>) -> Seq<u8> {
    declaration_start() + name + declaration_type() + digit_bytes(data.len()) + declaration_end()
        + array_body(data, data.len()) + array_end()
}

/// Appends `text` to `out`.
fn push_bytes(out: &mut Vec<u8>, text: &[u8])
    ensures
        final(out)@ == old(out)@ + text@,
{
    let mut i: usize = 0;
    while i < text.len()
        invariant
            i <= text@.len(),
            out@ == old(out)@ + text@.subrange(0, i as int),
        decreases text@.len() - i,
    {
        out.push(text[i]);
        assert(text@.subrange(0, i + 1) == text@.subrange(0, i as int).push(text@[i as int]));
        i = i + 1;
    }
    assert(text@.subrange(0, i as int) == text@);
}

/// Appends the decimal digits of `n`.
fn push_digits(out: &mut Vec<u8>, n: u64)
    ensures
        final(out)@ == old(out)@ + digit_bytes(n as nat),
    decreases n,
{
    if n >= 10 {
        push_digits(out, n / 10);
    }
    out.push((48 + n % 10) as u8);
    assert(old(out)@ + digit_bytes(n as nat) == if n >= 10 {
        old(out)@ + digit_bytes((n / 10) as nat) + seq![(48 + n % 10) as u8]
    } else {
        old(out)@ + seq![(48 + n % 10) as u8]
    });
}

proof fn lemma_digit_bytes_len(n: nat)
    ensures
        n < 100000 ==> digit_bytes(n).len() <= 5,
        n < 10000 ==> digit_bytes(n).len() <= 4,
        n < 1000 ==> digit_bytes(n).len() <= 3,
        n < 100 ==> digit_bytes(n).len() <= 2,
        1 <= digit_bytes(n).len(),
    decreases n,
{
    if n >= 10 {
        lemma_digit_bytes_len(n / 10);
    }
}

/// Appends the text of sample `i` of `data`.
fn push_cell(out: &mut Vec<u8>, data: &Vec<i16>, i: usize)
    requires
        i < data@.len(),
    ensures
        final(out)@ == old(out)@ + sample_cell(data@, i as int),
{
    if i % 10 == 0 {
        push_bytes(out, &[32u8, 32u8, 32u8, 32u8]);
    }
    let v = data[i];
    let mut digits = Vec::new();
    let magnitude: u64 = if v < 0 {
        (-(v as i32)) as u64
    } else {
        v as u64
    };
    if v < 0 {
        digits.push(45u8);
    }
    push_digits(&mut digits, magnitude);
    proof {
        lemma_digit_bytes_len(magnitude as nat);
        assert(digits@ == decimal_bytes(v as int));
    }
    let mut pad: usize = digits.len();
    while pad < 6
        invariant
            digits@.len() <= pad <= 6,
            pad > digits@.len() ==> out@ == old(out)@ + (if i % 10 == 0 { seq![32u8, 32u8, 32u8, 32u8] } else { Seq::empty() }) + Seq::new((pad - digits@.len()) as nat, |j: int| 32u8),
            pad == digits@.len() ==> out@ == old(out)@ + (if i % 10 == 0 { seq![32u8, 32u8, 32u8, 32u8] } else { Seq::empty() }),
        decreases 6 - pad,
    {
        out.push(32u8);
        pad = pad + 1;
    }
    push_bytes(out, digits.as_slice());
    out.push(44u8);
    if i % 10 == 9 {
        out.push(10u8);
    }
    assert(out@ == old(out)@ + sample_cell(data@, i as int));
}

/// The Rust source of a static array named `data_struct_name` holding the
/// samples: a declaration line `pub static NAME: [i16; LEN] = [`, the
/// values right-aligned in six places and followed by commas, ten to a line
/// and each line indented by four spaces, then a line break and `];`.
pub fn write_rust(data: &Vec<i16>, data_struct_name: &str) -> (text: Vec<u8>)
    ensures
        text@ == array_text(data_struct_name.spec_bytes(), data@),
{
    let mut out = Vec::new();
    push_bytes(&mut out, &[112u8, 117u8, 98u8, 32u8, 115u8, 116u8, 97u8, 116u8, 105u8, 99u8, 32u8]);
    let name = data_struct_name.as_bytes_vec();
    push_bytes(&mut out, name.as_slice());
    push_bytes(&mut out, &[58u8, 32u8, 91u8, 105u8, 49u8, 54u8, 59u8, 32u8]);
    push_digits(&mut out, data.len() as u64);
    push_bytes(&mut out, &[93u8, 32u8, 61u8, 32u8, 91u8, 10u8]);
    let ghost head = out@;
    assert(head == declaration_start() + data_struct_name.spec_bytes() + declaration_type()
        + digit_bytes(data@.len()) + declaration_end());
    let mut i: usize = 0;
    while i < data.len()
        invariant
            i <= data@.len(),
            out@ == head + array_body(data@, i as nat),
        decreases data@.len() - i,
    {
        push_cell(&mut out, data, i);
        i = i + 1;
    }
    push_bytes(&mut out, &[10u8, 93u8, 59u8, 10u8]);
    out
}

/// `v` as two bytes, least significant first (two's complement for a
/// negative `v`).
pub open spec fn le16(v: int) -> Seq<u8> {
    seq![(v % 256) as u8, ((v / 256) % 256) as u8]
}

/// `v` as four bytes, least significant first.
pub open spec fn le32(v: int) -> Seq<u8> {
    seq![
        (v % 256) as u8,
        ((v / 256) % 256) as u8,
        ((v / 65536) % 256) as u8,
        ((v / 16777216) % 256) as u8,
    ]
}

/// The samples, two bytes each, least significant first.
pub open spec fn sample_bytes(samples: Seq<i16>) -> Seq<u8>
    decreases samples.len(),
{
    if samples.len() == 0 {
        Seq::empty()
    } else {
        sample_bytes(samples.drop_last()) + le16(samples.last() as int)
    }
}

/// A four-letter chunk identifier.
pub open spec fn chunk_id(a: u8, b: u8, c: u8, d: u8) -> Seq<u8> {
    seq![a, b, c, d]
}

/// A 16-bit PCM WAV file: a RIFF chunk of form `WAVE` holding a `fmt `
/// chunk (format 1, the channel count, the sampling rate, the byte rate,
/// the bytes per frame, 16 bits per sample) and a `data` chunk with the
/// samples.
pub open spec fn wav_layout(channel_count: int, sampling_rate: int, samples: Seq<i16>) -> Seq<u8> {
    chunk_id(82, 73, 70, 70) + le32(36 + 2 * samples.len() as int) + chunk_id(87, 65, 86, 69)
        + chunk_id(102, 109, 116, 32) + le32(16)
        + le16(1) + le16(channel_count) + le32(sampling_rate) + le32(2 * channel_count * sampling_rate)
        + le16(2 * channel_count) + le16(16)
        + chunk_id(100, 97, 116, 97) + le32(2 * samples.len() as int) + sample_bytes(samples)
}

/// Relies on `wav::Header::new(WAV_FORMAT_PCM, channel_count, sampling_rate, 16)`
/// and `wav::write` with `BitDepth::Sixteen`, here into memory. `wav::write`
/// emits a RIFF chunk through the `riff` crate: the id, the length of what
/// follows and the form type `WAVE`, then the 16 header bytes in a `fmt `
/// chunk and the samples as little-endian pairs in a `data` chunk. It fails
/// only when a chunk is longer than `u32::MAX`, and the lengths are added in
/// `u32`, so the data is kept short enough for both. `Header::new`
/// multiplies `2 * channel_count` in `u16` and that by the rate in `u32`.
#[verifier::external_body]
#[allow(deprecated)]
fn wav_bytes(channel_count: u16, sampling_rate: u32, samples: &Vec<i16>) -> (r: Option<Vec<u8>>)
    requires
        2 * channel_count * sampling_rate <= u32::MAX,
        2 * channel_count <= u16::MAX,
        36 + 2 * samples@.len() <= u32::MAX,
    ensures
        r is Some,
        r matches Some(bytes) ==> bytes@ == wav_layout(
            channel_count as int,
            sampling_rate as int,
            samples@,
        ),
{
    let header = wav::Header::new(wav::header::WAV_FORMAT_PCM, channel_count, sampling_rate, 16);
    let mut out = std::io::Cursor::new(Vec::new());
    wav::write(header, &wav::BitDepth::Sixteen(samples.clone()), &mut out).ok()?;
    Some(out.into_inner())
}

/// The most samples a WAV file can hold: the file after the RIFF chunk's
/// first eight bytes, `36 + 2 * samples`, must fit in `u32`.
pub const MAX_WAV_SAMPLES: usize = 2147483629;

/// The samples as a 16-bit PCM WAV file with `number_channels` channels at
/// `sampling_rate`. Fails with `WriteError` naming `out_path` when the data
/// is too long for a RIFF chunk: more than `MAX_WAV_SAMPLES` samples.
pub fn wav_file(out_path: &str, data: &Vec<i16>, number_channels: u8, sampling_rate: u32) -> (r:
    Result<Vec<u8>, WavGenError>)
    requires
        2 * number_channels * sampling_rate <= u32::MAX,
    ensures
        r matches Ok(bytes) ==> bytes@ == wav_layout(
            number_channels as int,
            sampling_rate as int,
            data@,
        ),
        r matches Err(e) ==> (e matches WavGenError::WriteError(path) && path@ == out_path@),
        r is Err <==> data@.len() > MAX_WAV_SAMPLES,
{
    if data.len() > MAX_WAV_SAMPLES {
        return Err(WavGenError::WriteError(out_path.to_owned()));
    }
    match wav_bytes(number_channels as u16, sampling_rate, data) {
        Some(bytes) => Ok(bytes),
        None => Err(WavGenError::WriteError(out_path.to_owned())),
    }
}

} // verus!
