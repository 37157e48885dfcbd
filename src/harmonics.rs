//! Harmonic sets: reading them from a two-column table and normalising their
//! amplitudes.
//!
//! An amplitude is a non-negative decimal held exactly in millionths; the
//! normalised amplitude of a harmonic is its amplitude divided by the sum of
//! the set's amplitudes, kept as that fraction.
use vstd::prelude::*;
use crate::error::WavGenError;

verus! {

/// Millionths in one unit of amplitude.
pub const AMPLITUDE_UNIT: u64 = 1000000;

/// A sine component: a frequency in hertz and a relative amplitude in
/// millionths.
#[derive(Debug, Clone, Copy, PartialEq, Eq)]
pub struct Harmonic {
    pub frequency: u32,
    pub amplitude: u64,
}

/// The sum of the amplitudes of a harmonic set.
pub open spec fn amplitude_sum(hs: Seq<Harmonic>) -> int
    decreases hs.len(),
{
    if hs.len() == 0 {
        0
    } else {
        amplitude_sum(hs.drop_last()) + hs.last().amplitude
    }
}

/// A non-empty harmonic set with the common divisor of its amplitudes:
/// harmonic `i` has the normalised amplitude `harmonics[i].amplitude / total`.
pub struct NormalisedHarmonics {
    pub harmonics: Vec<Harmonic>,
    pub total: u128,
}

impl NormalisedHarmonics {
    /// The set is not empty and `total` is the sum of its amplitudes, which
    /// is positive: the normalised amplitudes add up to one.
    pub open spec fn wf(&self) -> bool {
        &&& self.harmonics@.len() > 0
        &&& self.total as int == amplitude_sum(self.harmonics@)
        &&& self.total > 0
    }
}

/// Amplitudes are never negative, nor is their sum.
pub proof fn lemma_amplitude_sum_nonneg(hs: Seq<Harmonic>)
    ensures
        0 <= amplitude_sum(hs),
    decreases hs.len(),
{
    if hs.len() > 0 {
        lemma_amplitude_sum_nonneg(hs.drop_last());
    }
}

proof fn lemma_amplitude_sum_bound(hs: Seq<Harmonic>)
    ensures
        0 <= amplitude_sum(hs) <= hs.len() * u64::MAX,
    decreases hs.len(),
{
    if hs.len() > 0 {
        lemma_amplitude_sum_bound(hs.drop_last());
    }
}

/// A non-empty set of positive amplitudes can always be normalised: their
/// sum is positive and each normalised amplitude `amplitude / sum` lies in
/// `(0, 1]`. Since `normalise_harmonics` keeps the amplitudes and takes their
/// sum as the divisor, the normalised amplitudes add up to exactly one and
/// keep their ratios.
pub proof fn lemma_positive_amplitudes_normalise(hs: Seq<Harmonic>)
    requires
        hs.len() > 0,
        forall|i: int| 0 <= i < hs.len() ==> #[trigger] hs[i].amplitude > 0,
    ensures
        amplitude_sum(hs) > 0,
        forall|i: int| 0 <= i < hs.len() ==> 0 < #[trigger] hs[i].amplitude <= amplitude_sum(hs),
    decreases hs.len(),
{
    let rest = hs.drop_last();
    lemma_amplitude_sum_nonneg(rest);
    if rest.len() > 0 {
        lemma_positive_amplitudes_normalise(rest);
        assert forall|i: int| 0 <= i < hs.len() implies 0 < #[trigger] hs[i].amplitude <= amplitude_sum(hs) by {
            if i < rest.len() {
                assert(rest[i] == hs[i]);
            }
        }
    }
    assert(hs.last() == hs[hs.len() - 1]);
}

/// Rescales a harmonic set so that its amplitudes add up to one: each
/// amplitude is divided by their sum. Fails with `NoHarmonics` on an empty
/// set and with `InvalidHarmonicAmplitude` when the sum is zero.
pub fn normalise_harmonics(harmonics: &Vec<Harmonic>) -> (r: Result<NormalisedHarmonics, WavGenError>)
    ensures
        harmonics@.len() == 0 ==> r == Err::<NormalisedHarmonics, WavGenError>(
            WavGenError::NoHarmonics,
        ),
        harmonics@.len() > 0 && amplitude_sum(harmonics@) == 0 ==> r == Err::<
            NormalisedHarmonics,
            WavGenError,
        >(WavGenError::InvalidHarmonicAmplitude),
        r is Ok <==> amplitude_sum(harmonics@) > 0,
        r matches Ok(set) ==> set.wf() && set.harmonics@ == harmonics@,
{
    if harmonics.len() == 0 {
        return Err(WavGenError::NoHarmonics);
    }
    let mut sum: u128 = 0;
    let mut i: usize = 0;
    while i < harmonics.len()
        invariant
            i <= harmonics@.len(),
            sum as int == amplitude_sum(harmonics@.subrange(0, i as int)),
        decreases harmonics@.len() - i,
    {
        proof {
            lemma_amplitude_sum_bound(harmonics@.subrange(0, i as int));
            assert(i * u64::MAX + u64::MAX <= u128::MAX) by (nonlinear_arith)
                requires
                    i < usize::MAX,
            ;
            assert(harmonics@.subrange(0, i + 1).drop_last() == harmonics@.subrange(0, i as int));
        }
        sum = sum + harmonics[i].amplitude as u128;
        i = i + 1;
    }
    assert(harmonics@.subrange(0, i as int) == harmonics@);
    if sum == 0 {
        return Err(WavGenError::InvalidHarmonicAmplitude);
    }
    Ok(NormalisedHarmonics { harmonics: harmonics.clone(), total: sum })
}

/// The records of a two-column table as the csv reader sees them: the header
/// row is left out, and each field is kept as written. `None` when the table
/// cannot be read.
pub uninterp spec fn csv_records_of(contents: Seq<u8>) -> Option<Seq<Seq<Seq<char>>>>;

/// Relies on `csv::Reader::from_reader` with its default settings (the first
/// row is a header and is skipped, fields are separated by commas and kept as
/// written, all records have the same number of fields) and on
/// `Reader::records`: the records of a table depend on its bytes alone.
#[verifier::external_body]
fn csv_records(contents: &[u8]) -> (r: Option<Vec<Vec<Vec<char>>>>)
    ensures
        r is None <==> csv_records_of(contents@) is None,
        r matches Some(rows) ==> csv_records_of(contents@) == Some(rows.deep_view()),
{
    let mut reader = csv::Reader::from_reader(contents);
    let mut rows = Vec::new();
    for record in reader.records() {
        let record = record.ok()?;
        rows.push(record.iter().map(|field| field.chars().collect()).collect());
    }
    Some(rows)
}

/// White space as `char::is_whitespace` has it: the characters with the
/// Unicode property `White_Space`.
pub open spec fn is_white_space(c: char) -> bool {
    let u = c as u32;
    (9 <= u <= 13) || u == 32 || u == 0x85 || u == 0xa0 || u == 0x1680 || (0x2000 <= u <= 0x200a)
        || u == 0x2028 || u == 0x2029 || u == 0x202f || u == 0x205f || u == 0x3000
}

fn white_space(c: char) -> (r: bool)
    ensures
        r == is_white_space(c),
{
    let u = c as u32;
    (9 <= u && u <= 13) || u == 32 || u == 0x85 || u == 0xa0 || u == 0x1680 || (0x2000 <= u && u
        <= 0x200a) || u == 0x2028 || u == 0x2029 || u == 0x202f || u == 0x205f || u == 0x3000
}

/// The text without the white space at its start.
pub open spec fn trim_start(s: Seq<char>) -> Seq<char>
    decreases s.len(),
{
    if s.len() > 0 && is_white_space(s[0]) {
        trim_start(s.drop_first())
    } else {
        s
    }
}

/// The text without the white space at its end.
pub open spec fn trim_end(s: Seq<char>) -> Seq<char>
    decreases s.len(),
{
    if s.len() > 0 && is_white_space(s.last()) {
        trim_end(s.drop_last())
    } else {
        s
    }
}

/// The text without white space at either end.
pub open spec fn trim(s: Seq<char>) -> Seq<char> {
    trim_end(trim_start(s))
}

/// The text without white space at either end, as a vector.
fn trimmed(s: &Vec<char>) -> (r: Vec<char>)
    ensures
        r@ == trim(s@),
{
    let mut lo: usize = 0;
    assert(s@.subrange(0, s@.len() as int) == s@);
    while lo < s.len() && white_space(s[lo])
        invariant
            lo <= s@.len(),
            trim_start(s@) == trim_start(s@.subrange(lo as int, s@.len() as int)),
        decreases s@.len() - lo,
    {
        assert(s@.subrange(lo as int, s@.len() as int).drop_first() == s@.subrange(
            lo + 1,
            s@.len() as int,
        ));
        lo = lo + 1;
    }
    let ghost rest = s@.subrange(lo as int, s@.len() as int);
    assert(trim_start(s@) == rest);
    let mut hi: usize = s.len();
    while hi > lo && white_space(s[hi - 1])
        invariant
            lo <= hi <= s@.len(),
            rest == s@.subrange(lo as int, s@.len() as int),
            trim_end(rest) == trim_end(s@.subrange(lo as int, hi as int)),
        decreases hi,
    {
        assert(s@.subrange(lo as int, hi as int).drop_last() == s@.subrange(lo as int, hi - 1));
        hi = hi - 1;
    }
    let mut r = Vec::new();
    let mut i: usize = lo;
    while i < hi
        invariant
            lo <= i <= hi <= s@.len(),
            r@ == s@.subrange(lo as int, i as int),
        decreases hi - i,
    {
        r.push(s[i]);
        assert(r@ == s@.subrange(lo as int, i + 1));
        i = i + 1;
    }
    r
}

/// An ASCII decimal digit.
pub open spec fn is_digit(c: char) -> bool {
    '0' as u32 <= c as u32 <= '9' as u32
}

/// The text is made of decimal digits alone.
pub open spec fn all_digits(s: Seq<char>) -> bool {
    forall|i: int| 0 <= i < s.len() ==> is_digit(#[trigger] s[i])
}

/// The value of a string of decimal digits (zero for the empty string).
pub open spec fn digits_value(s: Seq<char>) -> int
    decreases s.len(),
{
    if s.len() == 0 {
        0
    } else {
        digits_value(s.drop_last()) * 10 + (s.last() as u32 - '0' as u32)
    }
}

/// The text without one leading `+`.
pub open spec fn unsigned_text(s: Seq<char>) -> Seq<char> {
    if s.len() > 0 && s[0] == '+' {
        s.drop_first()
    } else {
        s
    }
}

/// A frequency as `u32`'s `from_str` reads it: an optional `+` and at least
/// one decimal digit, with a value that fits.
pub open spec fn parse_frequency(s: Seq<char>) -> Option<u32> {
    let d = unsigned_text(s);
    if d.len() > 0 && all_digits(d) && digits_value(d) <= u32::MAX {
        Some(digits_value(d) as u32)
    } else {
        None
    }
}

proof fn lemma_digits_value_prefix(s: Seq<char>, k: int)
    requires
        0 <= k <= s.len(),
        all_digits(s),
    ensures
        0 <= digits_value(s.subrange(0, k)) <= digits_value(s),
        k < s.len() ==> digits_value(s.subrange(0, k + 1)) == digits_value(s.subrange(0, k)) * 10
            + (s[k] as u32 - '0' as u32),
    decreases s.len() - k,
{
    if k < s.len() {
        assert(s.subrange(0, k + 1).drop_last() == s.subrange(0, k));
        lemma_digits_value_prefix(s, k + 1);
        assert(is_digit(s[k]));
    } else {
        assert(s.subrange(0, k) == s);
        lemma_digits_value_nonneg(s);
    }
}

proof fn lemma_digits_value_nonneg(s: Seq<char>)
    requires
        all_digits(s),
    ensures
        0 <= digits_value(s),
    decreases s.len(),
{
    if s.len() > 0 {
        assert(is_digit(s[s.len() - 1]));
        lemma_digits_value_nonneg(s.drop_last());
    }
}

/// The value of the digits of `s` from `from` up to `to`, if they are all
/// digits and the value is at most `limit`.
fn digits_upto(s: &Vec<char>, from: usize, to: usize, limit: u64) -> (r: Option<u64>)
    requires
        from <= to <= s@.len(),
    ensures
        r matches Some(v) ==> all_digits(s@.subrange(from as int, to as int)) && v as int
            == digits_value(s@.subrange(from as int, to as int)) && v <= limit,
        r is None ==> !all_digits(s@.subrange(from as int, to as int)) || digits_value(
            s@.subrange(from as int, to as int),
        ) > limit,
{
    let ghost d = s@.subrange(from as int, to as int);
    let mut value: u64 = 0;
    let mut i: usize = from;
    while i < to
        invariant
            from <= i <= to <= s@.len(),
            d == s@.subrange(from as int, to as int),
            all_digits(d.subrange(0, i - from)),
            value as int == digits_value(d.subrange(0, i - from)),
            value <= limit,
        decreases to - i,
    {
        let c = s[i];
        assert(d[i - from] == c);
        if !((c as u32) >= ('0' as u32) && (c as u32) <= ('9' as u32)) {
            assert(!is_digit(d[i - from]));
            return None;
        }
        let digit = (c as u32 - '0' as u32) as u64;
        assert(d.subrange(0, i + 1 - from).drop_last() == d.subrange(0, i - from));
        assert(all_digits(d.subrange(0, i + 1 - from)));
        let next = value as u128 * 10 + digit as u128;
        if next > limit as u128 {
            proof {
                if all_digits(d) {
                    lemma_digits_value_prefix(d, i + 1 - from);
                    lemma_digits_value_prefix(d, i - from);
                }
            }
            return None;
        }
        value = next as u64;
        i = i + 1;
    }
    assert(d.subrange(0, to - from) == d);
    Some(value)
}

/// `parse_frequency` on a vector of characters.
fn frequency_of(s: &Vec<char>) -> (r: Option<u32>)
    ensures
        r == parse_frequency(s@),
{
    let from: usize = if s.len() > 0 && s[0] == '+' {
        1
    } else {
        0
    };
    assert(unsigned_text(s@) == s@.subrange(from as int, s@.len() as int));
    if from == s.len() {
        return None;
    }
    match digits_upto(s, from, s.len(), u32::MAX as u64) {
        Some(v) => Some(v as u32),
        None => None,
    }
}

/// `10^n`.
pub open spec fn pow10(n: nat) -> int
    decreases n,
{
    if n == 0 {
        1
    } else {
        10 * pow10((n - 1) as nat)
    }
}

/// Where the first `.` of the text stands, or its length if it has none.
pub open spec fn dot_index(s: Seq<char>) -> int
    decreases s.len(),
{
    if s.len() == 0 || s[0] == '.' {
        0
    } else {
        1 + dot_index(s.drop_first())
    }
}

/// Where the first `e` or `E` of the text stands, or its length if it has
/// none.
pub open spec fn exponent_index(s: Seq<char>) -> int
    decreases s.len(),
{
    if s.len() == 0 || s[0] == 'e' || s[0] == 'E' {
        0
    } else {
        1 + exponent_index(s.drop_first())
    }
}

/// The digits of an exponent: its text without one leading sign.
pub open spec fn exponent_digits(x: Seq<char>) -> Seq<char> {
    if x.len() > 0 && (x[0] == '+' || x[0] == '-') {
        x.drop_first()
    } else {
        x
    }
}

/// The value of the decimal digits `digits` with the decimal point after
/// the first `shift` of them (padded with zeros when there are fewer), with
/// what lies after the point dropped.
pub open spec fn shifted_value(digits: Seq<char>, shift: int) -> int {
    if shift <= 0 {
        0
    } else if shift <= digits.len() {
        digits_value(digits.subrange(0, shift))
    } else {
        digits_value(digits) * pow10((shift - digits.len()) as nat)
    }
}

/// An amplitude in millionths, read from a non-negative decimal as `f32`'s
/// `from_str` writes one: an optional `+`, the digits of the whole part,
/// optionally a `.` and the digits of the fraction, with at least one digit
/// in all, then optionally `e` or `E`, a sign and at least one digit of a
/// power of ten. What lies past the sixth decimal place is dropped. A `-`
/// sign, infinities and `NaN` are not accepted, nor a value that does not
/// fit in `u64`.
pub open spec fn parse_amplitude(s: Seq<char>) -> Option<u64> {
    let u = unsigned_text(s);
    let q = exponent_index(u);
    let mantissa = u.subrange(0, q);
    let has_exponent = q < u.len();
    let x = if has_exponent { u.subrange(q + 1, u.len() as int) } else { Seq::<char>::empty() };
    let ed = exponent_digits(x);
    let e = if x.len() > 0 && x[0] == '-' { -digits_value(ed) } else { digits_value(ed) };
    let p = dot_index(mantissa);
    let whole = mantissa.subrange(0, p);
    let fraction = if p < mantissa.len() {
        mantissa.subrange(p + 1, mantissa.len() as int)
    } else {
        Seq::<char>::empty()
    };
    let value = shifted_value(whole + fraction, whole.len() + e + 6);
    if whole.len() + fraction.len() > 0 && all_digits(whole) && all_digits(fraction) && (
    has_exponent ==> ed.len() > 0 && all_digits(ed)) && value <= u64::MAX {
        Some(value as u64)
    } else {
        None
    }
}

proof fn lemma_dot_index(s: Seq<char>, i: int)
    requires
        0 <= i <= s.len(),
        forall|j: int| 0 <= j < i ==> s[j] != '.',
    ensures
        dot_index(s) == i + dot_index(s.subrange(i, s.len() as int)),
        0 <= dot_index(s) <= s.len(),
        dot_index(s) < s.len() ==> s[dot_index(s)] == '.',
    decreases i,
{
    lemma_dot_index_range(s);
    if i > 0 {
        assert(s.drop_first().subrange(i - 1, s.drop_first().len() as int) == s.subrange(i, s.len() as int));
        lemma_dot_index(s.drop_first(), i - 1);
    } else {
        assert(s.subrange(0, s.len() as int) == s);
    }
}

proof fn lemma_dot_index_range(s: Seq<char>)
    ensures
        0 <= dot_index(s) <= s.len(),
        dot_index(s) < s.len() ==> s[dot_index(s)] == '.',
    decreases s.len(),
{
    if s.len() > 0 && s[0] != '.' {
        lemma_dot_index_range(s.drop_first());
    }
}

/// Whether the characters of `s` from `from` up to `to` are all digits.
fn digits_only(s: &Vec<char>, from: usize, to: usize) -> (r: bool)
    requires
        from <= to <= s@.len(),
    ensures
        r == all_digits(s@.subrange(from as int, to as int)),
{
    let ghost d = s@.subrange(from as int, to as int);
    let mut i: usize = from;
    while i < to
        invariant
            from <= i <= to <= s@.len(),
            d == s@.subrange(from as int, to as int),
            forall|j: int| 0 <= j < i - from ==> is_digit(#[trigger] d[j]),
        decreases to - i,
    {
        let c = s[i];
        assert(d[i - from] == c);
        if !((c as u32) >= ('0' as u32) && (c as u32) <= ('9' as u32)) {
            return false;
        }
        i = i + 1;
    }
    true
}

proof fn lemma_exponent_index(s: Seq<char>, i: int)
    requires
        0 <= i <= s.len(),
        forall|j: int| 0 <= j < i ==> s[j] != 'e' && s[j] != 'E',
        i < s.len() ==> s[i] == 'e' || s[i] == 'E',
    ensures
        exponent_index(s) == i,
    decreases i,
{
    if i > 0 {
        lemma_exponent_index(s.drop_first(), i - 1);
    }
}

proof fn lemma_pow10_grows(j: nat, k: nat)
    requires
        j <= k,
    ensures
        1 <= pow10(j) <= pow10(k),
    decreases k,
{
    if k > j {
        lemma_pow10_grows(j, (k - 1) as nat);
    } else if k > 0 {
        lemma_pow10_grows(0, (k - 1) as nat);
    }
}

proof fn lemma_pow10_twenty()
    ensures
        pow10(20) > u64::MAX,
{
    reveal_with_fuel(pow10, 21);
    assert(pow10(20) == 100000000000000000000);
}

/// The largest exponent kept exactly: any larger one moves the decimal
/// point past every length a text can have.
pub const EXPONENT_CAP: u128 = 36893488147419103232;

/// `min(digits_value(..), EXPONENT_CAP)` of the digits of `s` from `from`
/// up to `to`.
fn capped_digits(s: &Vec<char>, from: usize, to: usize) -> (r: u128)
    requires
        from <= to <= s@.len(),
        all_digits(s@.subrange(from as int, to as int)),
    ensures
        r == (if digits_value(s@.subrange(from as int, to as int)) < EXPONENT_CAP {
            digits_value(s@.subrange(from as int, to as int))
        } else {
            EXPONENT_CAP as int
        }),
{
    let ghost d = s@.subrange(from as int, to as int);
    let mut value: u128 = 0;
    let mut i: usize = from;
    while i < to
        invariant
            from <= i <= to <= s@.len(),
            d == s@.subrange(from as int, to as int),
            all_digits(d),
            value == (if digits_value(d.subrange(0, i - from)) < EXPONENT_CAP {
                digits_value(d.subrange(0, i - from))
            } else {
                EXPONENT_CAP as int
            }),
        decreases to - i,
    {
        proof {
            lemma_digits_value_prefix(d, i - from);
            lemma_digits_value_prefix(d, i - from + 1);
            assert(d[i - from] == s@[i as int]);
        }
        let digit = (s[i] as u32 - '0' as u32) as u128;
        let next = value * 10 + digit;
        value = if next < EXPONENT_CAP {
            next
        } else {
            EXPONENT_CAP
        };
        i = i + 1;
    }
    assert(d.subrange(0, to - from) == d);
    value
}

/// `shifted_value(digits, shift)`, if it fits in `u64`.
fn shifted_of(digits: &Vec<char>, shift: i128) -> (r: Option<u64>)
    requires
        all_digits(digits@),
    ensures
        r is Some <==> shifted_value(digits@, shift as int) <= u64::MAX,
        r matches Some(v) ==> v as int == shifted_value(digits@, shift as int),
{
    let n = digits.len();
    assert(digits@.subrange(0, n as int) == digits@);
    if shift <= 0 {
        return Some(0);
    }
    if shift <= n as i128 {
        proof {
            assert(all_digits(digits@.subrange(0, shift as int)));
            lemma_digits_value_prefix(digits@, shift as int);
        }
        return digits_upto(digits, 0, shift as usize, u64::MAX);
    }
    let ghost k = (shift - n) as nat;
    proof {
        lemma_pow10_grows(0, k);
        lemma_digits_value_nonneg(digits@);
        assert(digits_value(digits@) <= digits_value(digits@) * pow10(k)) by (nonlinear_arith)
            requires
                0 <= digits_value(digits@),
                1 <= pow10(k),
        ;
    }
    let whole = match digits_upto(digits, 0, n, u64::MAX) {
        Some(v) => v,
        None => {
            return None;
        },
    };
    if whole == 0 {
        assert(0 * pow10(k) == 0);
        return Some(0);
    }
    if shift - n as i128 >= 20 {
        proof {
            lemma_pow10_grows(20, k);
            lemma_pow10_twenty();
            assert(whole * pow10(k) >= pow10(k)) by (nonlinear_arith)
                requires
                    whole >= 1,
                    pow10(k) >= 1,
            ;
        }
        return None;
    }
    let steps = (shift - n as i128) as u32;
    let mut value: u128 = whole as u128;
    let mut i: u32 = 0;
    while i < steps
        invariant
            i <= steps,
            steps == k,
            k == (shift - digits@.len()) as nat,
            shift > digits@.len(),
            whole as int == digits_value(digits@),
            value == whole * pow10(i as nat),
            value <= u64::MAX,
            whole >= 1,
        decreases steps - i,
    {
        let next = value * 10;
        assert(next == whole * pow10((i + 1) as nat)) by (nonlinear_arith)
            requires
                value == whole * pow10(i as nat),
                next == value * 10,
                pow10((i + 1) as nat) == 10 * pow10(i as nat),
        ;
        if next > u64::MAX as u128 {
            proof {
                lemma_pow10_grows((i + 1) as nat, k);
                assert(whole * pow10((i + 1) as nat) <= whole * pow10(k)) by (nonlinear_arith)
                    requires
                        pow10((i + 1) as nat) <= pow10(k),
                        whole >= 1,
                ;
            }
            return None;
        }
        value = next;
        i = i + 1;
    }
    Some(value as u64)
}

/// The characters of `s` from `from` up to `to`, then from `from2` up to
/// `to2`.
fn two_ranges(s: &Vec<char>, from: usize, to: usize, from2: usize, to2: usize) -> (r: Vec<char>)
    requires
        from <= to <= s@.len(),
        from2 <= to2 <= s@.len(),
    ensures
        r@ == s@.subrange(from as int, to as int) + s@.subrange(from2 as int, to2 as int),
{
    let mut r = Vec::new();
    let mut i: usize = from;
    while i < to
        invariant
            from <= i <= to <= s@.len(),
            r@ == s@.subrange(from as int, i as int),
        decreases to - i,
    {
        r.push(s[i]);
        assert(r@ == s@.subrange(from as int, i + 1));
        i = i + 1;
    }
    let ghost first = r@;
    let mut i: usize = from2;
    while i < to2
        invariant
            from2 <= i <= to2 <= s@.len(),
            r@ == first + s@.subrange(from2 as int, i as int),
        decreases to2 - i,
    {
        r.push(s[i]);
        assert(s@.subrange(from2 as int, i + 1) == s@.subrange(from2 as int, i as int).push(s@[i as int]));
        i = i + 1;
    }
    r
}

/// The sign and the capped magnitude of the exponent written in `s` from
/// `from` on (the text after the `e`).
fn exponent_of(s: &Vec<char>, from: usize) -> (r: Option<(bool, u128)>)
    requires
        from <= s@.len(),
    ensures
        ({
            let x = s@.subrange(from as int, s@.len() as int);
            let ed = exponent_digits(x);
            &&& r is Some <==> ed.len() > 0 && all_digits(ed)
            &&& r matches Some((negative, magnitude)) ==> (negative <==> x.len() > 0 && x[0] == '-')
                && magnitude == (if digits_value(ed) < EXPONENT_CAP {
                digits_value(ed)
            } else {
                EXPONENT_CAP as int
            })
        }),
{
    let len = s.len();
    let ghost x = s@.subrange(from as int, len as int);
    let mut negative = false;
    let digits_from: usize = if from < len && (s[from] == '+' || s[from] == '-') {
        negative = s[from] == '-';
        from + 1
    } else {
        from
    };
    assert(exponent_digits(x) == s@.subrange(digits_from as int, len as int));
    if digits_from == len || !digits_only(s, digits_from, len) {
        return None;
    }
    Some((negative, capped_digits(s, digits_from, len)))
}

/// With the exponent's magnitude capped, the shift that is computed gives
/// the same outcome as the exact one.
proof fn lemma_capped_shift(
    digits: Seq<char>,
    whole_len: int,
    magnitude_exact: int,
    negative: bool,
    magnitude: u128,
    shift: i128,
)
    requires
        all_digits(digits),
        0 <= whole_len <= digits.len() <= usize::MAX,
        0 <= magnitude_exact,
        magnitude == (if magnitude_exact < EXPONENT_CAP { magnitude_exact } else { EXPONENT_CAP as int }),
        shift == (if negative { whole_len + 6 - magnitude } else { whole_len + 6 + magnitude }),
    ensures
        ({
            let exact = whole_len + (if negative { -magnitude_exact } else { magnitude_exact }) + 6;
            &&& shifted_value(digits, shift as int) <= u64::MAX <==> shifted_value(digits, exact)
                <= u64::MAX
            &&& shifted_value(digits, shift as int) <= u64::MAX ==> shifted_value(digits, shift as int)
                == shifted_value(digits, exact)
        }),
{
    let exact = whole_len + (if negative { -magnitude_exact } else { magnitude_exact }) + 6;
    if magnitude < EXPONENT_CAP {
        assert(shift == exact);
    } else if negative {
        assert(shift <= 0 && exact <= 0);
    } else {
        let n = digits.len() as int;
        assert(shift >= n + 20 && exact >= shift);
        lemma_pow10_grows((shift - n) as nat, (exact - n) as nat);
        lemma_pow10_grows(20, (shift - n) as nat);
        lemma_pow10_twenty();
        lemma_digits_value_nonneg(digits);
        let d = digits_value(digits);
        if d == 0 {
            assert(d * pow10((shift - n) as nat) == 0);
            assert(d * pow10((exact - n) as nat) == 0);
        } else {
            assert(d * pow10((shift - n) as nat) > u64::MAX && d * pow10((exact - n) as nat)
                > u64::MAX) by (nonlinear_arith)
                requires
                    d >= 1,
                    pow10((shift - n) as nat) > u64::MAX,
                    pow10((shift - n) as nat) <= pow10((exact - n) as nat),
            ;
        }
    }
}

/// `parse_amplitude` on a vector of characters.
#[verifier::rlimit(60)]
fn amplitude_of(s: &Vec<char>) -> (r: Option<u64>)
    ensures
        r == parse_amplitude(s@),
{
    let len = s.len();
    let from: usize = if len > 0 && s[0] == '+' {
        1
    } else {
        0
    };
    let ghost u = unsigned_text(s@);
    assert(u == s@.subrange(from as int, len as int));
    let mut q: usize = from;
    while q < len && s[q] != 'e' && s[q] != 'E'
        invariant
            from <= q <= len == s@.len(),
            u == s@.subrange(from as int, len as int),
            forall|j: int| 0 <= j < q - from ==> u[j] != 'e' && u[j] != 'E',
        decreases len - q,
    {
        assert(u[q - from] == s@[q as int]);
        q = q + 1;
    }
    proof {
        if q < len {
            assert(u[q - from] == s@[q as int]);
        }
        lemma_exponent_index(u, q - from);
    }
    let ghost mantissa = u.subrange(0, q - from);
    assert(mantissa == s@.subrange(from as int, q as int));
    let mut p: usize = from;
    while p < q && s[p] != '.'
        invariant
            from <= p <= q <= len == s@.len(),
            mantissa == s@.subrange(from as int, q as int),
            forall|j: int| 0 <= j < p - from ==> mantissa[j] != '.',
        decreases q - p,
    {
        assert(mantissa[p - from] == s@[p as int]);
        p = p + 1;
    }
    proof {
        lemma_dot_index(mantissa, p - from);
        if p < q {
            assert(mantissa.subrange(p - from, mantissa.len() as int)[0] == '.');
        }
        assert(dot_index(mantissa) == p - from);
        assert(mantissa.subrange(0, p - from) == s@.subrange(from as int, p as int));
    }
    let end: usize = if p < q {
        p + 1
    } else {
        p
    };
    let ghost fraction = s@.subrange(end as int, q as int);
    assert(p < q ==> fraction == mantissa.subrange(p - from + 1, mantissa.len() as int));
    assert(p == q ==> fraction =~= Seq::<char>::empty());
    if p == from && end == q {
        return None;
    }
    if !digits_only(s, from, p) || !digits_only(s, end, q) {
        return None;
    }
    let ghost x = if q < len { u.subrange(q - from + 1, u.len() as int) } else { Seq::<char>::empty() };
    let ghost ed = exponent_digits(x);
    let (negative, magnitude) = if q < len {
        assert(x == s@.subrange(q + 1, len as int));
        match exponent_of(s, q + 1) {
            Some(pair) => pair,
            None => {
                return None;
            },
        }
    } else {
        assert(ed.len() == 0);
        (false, 0u128)
    };
    let ghost e = if x.len() > 0 && x[0] == '-' { -digits_value(ed) } else { digits_value(ed) };
    assert(negative <==> x.len() > 0 && x[0] == '-');
    let digits = two_ranges(s, from, p, end, q);
    let ghost whole = s@.subrange(from as int, p as int);
    proof {
        assert forall|j: int| 0 <= j < digits@.len() implies is_digit(#[trigger] digits@[j]) by {
            if j < whole.len() {
                assert(digits@[j] == whole[j]);
            } else {
                assert(digits@[j] == fraction[j - whole.len()]);
            }
        }
        lemma_digits_value_nonneg(ed);
    }
    let base: i128 = (p - from) as i128 + 6;
    let shift: i128 = if negative {
        base - magnitude as i128
    } else {
        base + magnitude as i128
    };
    let ghost exact = whole.len() + e + 6;
    let r = shifted_of(&digits, shift);
    proof {
        lemma_digits_value_nonneg(ed);
        lemma_capped_shift(digits@, whole.len() as int, digits_value(ed), negative, magnitude, shift);
    }
    r
}

/// A harmonic read from a record: the frequency from its first field and the
/// amplitude from its second, each without white space at either end.
/// Further fields are ignored.
pub open spec fn parse_row(row: Seq<Seq<char>>) -> Option<Harmonic> {
    if row.len() < 2 {
        None
    } else {
        match (parse_frequency(trim(row[0])), parse_amplitude(trim(row[1]))) {
            (Some(frequency), Some(amplitude)) => Some(Harmonic { frequency, amplitude }),
            _ => None,
        }
    }
}

/// The harmonics of the records in order, or the number (counted from 1) of
/// the first record that is malformed.
pub open spec fn parse_rows(rows: Seq<Seq<Seq<char>>>) -> Result<Seq<Harmonic>, int>
    decreases rows.len(),
{
    if rows.len() == 0 {
        Ok(Seq::empty())
    } else {
        match parse_rows(rows.drop_last()) {
            Err(line) => Err(line),
            Ok(hs) => match parse_row(rows.last()) {
                Some(h) => Ok(hs.push(h)),
                None => Err(rows.len() as int),
            },
        }
    }
}

/// `parse_row` on one record.
fn harmonic_of(row: &Vec<Vec<char>>) -> (r: Option<Harmonic>)
    ensures
        r == parse_row(row.deep_view()),
{
    if row.len() < 2 {
        return None;
    }
    let frequency_text = trimmed(&row[0]);
    let amplitude_text = trimmed(&row[1]);
    assert(row.deep_view()[0] == row@[0]@);
    assert(row.deep_view()[1] == row@[1]@);
    match (frequency_of(&frequency_text), amplitude_of(&amplitude_text)) {
        (Some(frequency), Some(amplitude)) => Some(Harmonic { frequency, amplitude }),
        _ => None,
    }
}

proof fn lemma_parse_rows_err(rows: Seq<Seq<Seq<char>>>, k: int)
    requires
        0 <= k <= rows.len(),
        parse_rows(rows.subrange(0, k)) is Err,
    ensures
        parse_rows(rows) == parse_rows(rows.subrange(0, k)),
    decreases rows.len() - k,
{
    if k < rows.len() {
        assert(rows.subrange(0, k + 1).drop_last() == rows.subrange(0, k));
        lemma_parse_rows_err(rows, k + 1);
    } else {
        assert(rows.subrange(0, k) == rows);
    }
}

/// The harmonics of a table's records, one per record in order (see
/// `parse_row`). A malformed record fails with `HarmonicParseError` and its
/// number, counted from 1.
pub fn harmonics_from_records(records: &Vec<Vec<Vec<char>>>) -> (r: Result<
    Vec<Harmonic>,
    WavGenError,
>)
    ensures
        match parse_rows(records.deep_view()) {
            Ok(hs) => (r matches Ok(v) && v@ == hs),
            Err(line) => (r matches Err(WavGenError::HarmonicParseError(l)) && l == line),
        },
{
    let ghost all = records.deep_view();
    let mut harmonics = Vec::new();
    let mut k: usize = 0;
    while k < records.len()
        invariant
            k <= records@.len(),
            all == records.deep_view(),
            all.len() == records@.len(),
            parse_rows(all.subrange(0, k as int)) == Ok::<Seq<Harmonic>, int>(harmonics@),
        decreases records@.len() - k,
    {
        let row = &records[k];
        let parsed = harmonic_of(row);
        proof {
            assert(all[k as int] == row.deep_view());
            assert(all.subrange(0, k + 1).drop_last() == all.subrange(0, k as int));
            assert(all.subrange(0, k + 1).last() == all[k as int]);
        }
        match parsed {
            Some(h) => {
                harmonics.push(h);
            },
            None => {
                proof {
                    assert(parse_rows(all.subrange(0, k + 1)) == Err::<Seq<Harmonic>, int>(k + 1));
                    lemma_parse_rows_err(all, k + 1);
                }
                return Err(WavGenError::HarmonicParseError(k + 1));
            },
        }
        k = k + 1;
    }
    assert(all.subrange(0, k as int) == all);
    Ok(harmonics)
}

/// Reads a harmonic set from the contents of a two-column table with a
/// header row, one harmonic per record: frequency, then amplitude (see
/// `parse_row`). A table that cannot be read fails with `ReadError` naming
/// `harmonics_path`; a malformed record fails with `HarmonicParseError` and
/// its number, counted from 1 after the header.
pub fn read_harmonics(harmonics_path: &str, contents: &[u8]) -> (r: Result<Vec<Harmonic>, WavGenError>)
    ensures
        csv_records_of(contents@) is None ==> (r matches Err(WavGenError::ReadError(path))
            && path@ == harmonics_path@),
        csv_records_of(contents@) matches Some(rows) ==> match parse_rows(rows) {
            Ok(hs) => (r matches Ok(v) && v@ == hs),
            Err(line) => (r matches Err(WavGenError::HarmonicParseError(l)) && l == line),
        },
{
    match csv_records(contents) {
        Some(records) => harmonics_from_records(&records),
        None => Err(WavGenError::ReadError(harmonics_path.to_owned())),
    }
}

} // verus!
