//! The errors of the library: every one of them ends the run.
use vstd::prelude::*;

verus! {

/// Why the synthesis could not be completed.
#[derive(Debug, PartialEq, Eq)]
pub enum WavGenError {
    /// The harmonic description at this path could not be read.
    ReadError(String),
    /// The destination at this path could not be written.
    WriteError(String),
    /// The destination at this path could not be created.
    CreateError(String),
    /// The harmonic row with this number (counted from 1) is malformed.
    HarmonicParseError(usize),
    /// The harmonic set is empty.
    NoHarmonics,
    /// The amplitudes of the harmonic set add up to zero.
    InvalidHarmonicAmplitude,
    /// A stereo sample count that is odd.
    InvalidLength,
    /// A synchronised cycle was asked for a signal that has none.
    UnsupportedLengthPolicy,
    /// The synchronised cycle is longer than a sample count can hold.
    CycleTooLong,
}

/// The decimal digits of `n`, most significant first.
pub open spec fn decimal_text(n: nat) -> Seq<char>
    decreases n,
{
    if n < 10 {
        "0123456789"@.subrange(n as int, n as int + 1)
    } else {
        decimal_text(n / 10) + "0123456789"@.subrange((n % 10) as int, (n % 10) as int + 1)
    }
}

/// Appends the decimal digits of `n`.
fn append_decimal(text: &mut String, n: usize)
    ensures
        final(text)@ == old(text)@ + decimal_text(n as nat),
    decreases n,
{
    if n >= 10 {
        append_decimal(text, n / 10);
    }
    let digits = "0123456789";
    proof {
        reveal_strlit("0123456789");
    }
    text.append(digits.substring_char(n % 10, n % 10 + 1));
}

/// The lowercase hexadecimal digits of `n`, most significant first.
pub open spec fn hex_text(n: nat) -> Seq<char>
    decreases n,
{
    if n < 16 {
        "0123456789abcdef"@.subrange(n as int, n as int + 1)
    } else {
        hex_text(n / 16) + "0123456789abcdef"@.subrange((n % 16) as int, (n % 16) as int + 1)
    }
}

/// A control character: U+0000 to U+001F and U+007F to U+009F.
pub open spec fn is_control(c: char) -> bool {
    (c as u32) < 0x20 || (0x7f <= (c as u32) && (c as u32) < 0xa0)
}

/// One character of a quoted path as `{:?}` writes it: a backslash before
/// `\` and `"`, the escapes `\t`, `\r`, `\n` and `\0`, and `\u{..}` in hex
/// for the other control characters.
pub open spec fn escaped_char(c: char) -> Seq<char> {
    if c == '"' {
        "\\\""@
    } else if c == '\\' {
        "\\\\"@
    } else if c == '\t' {
        "\\t"@
    } else if c == '\r' {
        "\\r"@
    } else if c == '\n' {
        "\\n"@
    } else if c == '\0' {
        "\\0"@
    } else if is_control(c) {
        "\\u{"@ + hex_text(c as u32 as nat) + "}"@
    } else {
        seq![c]
    }
}

/// A path with each character escaped, between double quotes.
pub open spec fn escaped(s: Seq<char>) -> Seq<char>
    decreases s.len(),
{
    if s.len() == 0 {
        Seq::empty()
    } else {
        escaped(s.drop_last()) + escaped_char(s.last())
    }
}

/// Appends the hexadecimal digits of `n`.
fn append_hex(text: &mut String, n: u32)
    ensures
        final(text)@ == old(text)@ + hex_text(n as nat),
    decreases n,
{
    if n >= 16 {
        append_hex(text, n / 16);
    }
    let digits = "0123456789abcdef";
    proof {
        reveal_strlit("0123456789abcdef");
    }
    text.append(digits.substring_char((n % 16) as usize, (n % 16) as usize + 1));
}

/// Appends `path` between double quotes, escaped as `escaped` has it.
fn append_quoted(text: &mut String, path: &str)
    ensures
        final(text)@ == old(text)@ + "\""@ + escaped(path@) + "\""@,
{
    text.append("\"");
    let n = path.unicode_len();
    let mut i: usize = 0;
    while i < n
        invariant
            i <= n,
            n == path@.len(),
            text@ == old(text)@ + "\""@ + escaped(path@.subrange(0, i as int)),
        decreases n - i,
    {
        let c = path.get_char(i);
        proof {
            assert(path@.subrange(0, i + 1).drop_last() == path@.subrange(0, i as int));
            assert(path@.subrange(0, i + 1).last() == c);
        }
        let u = c as u32;
        if c == '"' {
            text.append("\\\"");
        } else if c == '\\' {
            text.append("\\\\");
        } else if c == '\t' {
            text.append("\\t");
        } else if c == '\r' {
            text.append("\\r");
        } else if c == '\n' {
            text.append("\\n");
        } else if c == '\0' {
            text.append("\\0");
        } else if u < 0x20 || (0x7f <= u && u < 0xa0) {
            text.append("\\u{");
            append_hex(text, u);
            text.append("}");
        } else {
            text.append(path.substring_char(i, i + 1));
        }
        i = i + 1;
    }
    assert(path@.subrange(0, n as int) == path@);
    text.append("\"");
}

/// The message that reports an error to a user.
pub open spec fn message_text(e: WavGenError) -> Seq<char> {
    match e {
        WavGenError::ReadError(p) => "could not read file "@ + "\""@ + escaped(p@) + "\""@,
        WavGenError::WriteError(p) => "could not write file "@ + "\""@ + escaped(p@) + "\""@,
        WavGenError::CreateError(p) => "unable to create file "@ + "\""@ + escaped(p@) + "\""@,
        WavGenError::HarmonicParseError(line) => "parse error in harmonic file at line "@
            + decimal_text(line as nat),
        WavGenError::NoHarmonics => "no harmonics found"@,
        WavGenError::InvalidHarmonicAmplitude => "the harmonic amplitudes add up to zero"@,
        WavGenError::InvalidLength => "with stereo the length needs to be an even number"@,
        WavGenError::UnsupportedLengthPolicy => "the signal has no synchronised cycle"@,
        WavGenError::CycleTooLong => "the synchronised cycle is too long"@,
    }
}

impl WavGenError {
    /// The message that reports this error to a user; a path stands in
    /// double quotes, escaped as Rust's debug format escapes a string.
    pub fn message(&self) -> (r: String)
        ensures
            r@ == message_text(*self),
    {
        match self {
            WavGenError::ReadError(p) => {
                let mut text = String::from_str("could not read file ");
                append_quoted(&mut text, p.as_str());
                text
            },
            WavGenError::WriteError(p) => {
                let mut text = String::from_str("could not write file ");
                append_quoted(&mut text, p.as_str());
                text
            },
            WavGenError::CreateError(p) => {
                let mut text = String::from_str("unable to create file ");
                append_quoted(&mut text, p.as_str());
                text
            },
            WavGenError::HarmonicParseError(line) => {
                let mut text = String::from_str("parse error in harmonic file at line ");
                append_decimal(&mut text, *line);
                text
            },
            WavGenError::NoHarmonics => String::from_str("no harmonics found"),
            WavGenError::InvalidHarmonicAmplitude => String::from_str(
                "the harmonic amplitudes add up to zero",
            ),
            WavGenError::InvalidLength => String::from_str(
                "with stereo the length needs to be an even number",
            ),
            WavGenError::UnsupportedLengthPolicy => String::from_str(
                "the signal has no synchronised cycle",
            ),
            WavGenError::CycleTooLong => String::from_str("the synchronised cycle is too long"),
        }
    }
}

} // verus!
