//! Durations as text.

use vstd::prelude::*;

verus! {

/// A duration in hundredths of a second, which is shown as hours, minutes,
/// seconds and hundredths: `h:mm:ss.ff`.
#[derive(Debug, Clone, Copy, PartialEq, Eq, Structural)]
pub struct DurationDisplay(pub u64);

/// The character of the digit `d`.
pub open spec fn digit(d: int) -> u8 {
    (48 + d) as u8
}

/// The digits of `n`, without leading zeros.
pub open spec fn decimal(n: nat) -> Seq<u8>
    decreases n,
{
    if n < 10 {
        seq![digit(n as int)]
    } else {
        decimal(n / 10).push(digit(n as int % 10))
    }
}

/// The two digits of a number below 100.
pub open spec fn two_digits(n: nat) -> Seq<u8> {
    seq![digit(n as int / 10 % 10), digit(n as int % 10)]
}

/// The text of a duration of `hundredths` hundredths of a second, in ASCII.
pub open spec fn duration_text(hundredths: nat) -> Seq<u8> {
    let total_secs = hundredths / 100;
    let hours = total_secs / 3600;
    let rem = total_secs % 3600;
    decimal(hours) + seq![58u8] + two_digits(rem / 60) + seq![58u8] + two_digits(rem % 60)
        + seq![46u8] + two_digits(hundredths % 100)
}

/// Every digit is an ASCII character.
pub proof fn lemma_decimal_ascii(n: nat)
    ensures
        decimal(n).len() >= 1,
        forall|i: int| 0 <= i < decimal(n).len() ==> 48 <= #[trigger] decimal(n)[i] <= 57,
    decreases n,
{
    if n >= 10 {
        lemma_decimal_ascii(n / 10);
    }
}

/// Appends the digits of `n` to `out`.
pub(crate) fn push_decimal(out: &mut Vec<u8>, n: u64)
    ensures
        final(out)@ == old(out)@ + decimal(n as nat),
    decreases n,
{
    if n >= 10 {
        push_decimal(out, n / 10);
        out.push(48 + (n % 10) as u8);
        assert(out@ =~= old(out)@ + decimal(n as nat));
    } else {
        out.push(48 + n as u8);
        assert(out@ =~= old(out)@ + decimal(n as nat));
    }
}

/// Appends the two digits of `n` to `out`.
fn push_two_digits(out: &mut Vec<u8>, n: u64)
    requires
        n < 100,
    ensures
        final(out)@ == old(out)@ + two_digits(n as nat),
{
    out.push(48 + (n / 10 % 10) as u8);
    out.push(48 + (n % 10) as u8);
    assert(out@ =~= old(out)@ + two_digits(n as nat));
}

/// `String::from_utf8` of std, on bytes that are all ASCII: the string has
/// one character for each byte, with the byte's code.
#[verifier::external_body]
pub(crate) fn ascii_string(bytes: Vec<u8>) -> (text: String)
    requires
        forall|i: int| 0 <= i < bytes@.len() ==> #[trigger] bytes@[i] < 128,
    ensures
        text@ == Seq::new(bytes@.len(), |i: int| bytes@[i] as char),
{
    String::from_utf8(bytes).unwrap()
}

impl DurationDisplay {
    /// The hours, the minutes, the seconds and the hundredths of a second.
    pub fn parts(&self) -> (parts: (u64, u64, u64, u64))
        ensures
            parts.0 == self.0 / 100 / 3600,
            parts.1 == self.0 / 100 % 3600 / 60,
            parts.2 == self.0 / 100 % 3600 % 60,
            parts.3 == self.0 % 100,
    {
        let total_secs: u64 = self.0 / 100;
        let hours: u64 = total_secs / 3600;
        let rem: u64 = total_secs % 3600;
        let minutes: u64 = rem / 60;
        let seconds: u64 = rem % 60;
        let fraction: u64 = self.0 % 100;
        (hours, minutes, seconds, fraction)
    }

    /// The duration as text: the hours, then minutes, seconds and hundredths
    /// with two digits each.
    pub fn text(&self) -> (text: String)
        ensures
            text@ == Seq::new(
                duration_text(self.0 as nat).len(),
                |i: int| duration_text(self.0 as nat)[i] as char,
            ),
    {
        let (hours, minutes, seconds, fraction) = self.parts();
        let mut bytes: Vec<u8> = Vec::new();
        push_decimal(&mut bytes, hours);
        bytes.push(58);
        push_two_digits(&mut bytes, minutes);
        bytes.push(58);
        push_two_digits(&mut bytes, seconds);
        bytes.push(46);
        push_two_digits(&mut bytes, fraction);
        proof {
            lemma_decimal_ascii(hours as nat);
            assert(bytes@ =~= duration_text(self.0 as nat));
        }
        ascii_string(bytes)
    }
}

/// The 16-bit sample whose low byte is `low` and whose high byte is `high`.
pub open spec fn sample_of(low: u8, high: u8) -> i16 {
    if low + 256 * high >= 32768 {
        (low + 256 * high - 65536) as i16
    } else {
        (low + 256 * high) as i16
    }
}

/// The samples that `bytes` hold, two bytes each, the low byte first. A
/// last byte without a partner is left out.
pub open spec fn samples_of(bytes: Seq<u8>) -> Seq<i16> {
    Seq::new(bytes.len() / 2, |i: int| sample_of(bytes[2 * i], bytes[2 * i + 1]))
}

/// Reads 16-bit samples from bytes, the low byte of each sample first.
pub fn samples_from_le_bytes(bytes: &[u8]) -> (samples: Vec<i16>)
    ensures
        samples@ == samples_of(bytes@),
{
    let len: usize = bytes.len();
    let count: usize = len / 2;
    let mut samples: Vec<i16> = Vec::with_capacity(count);
    let mut i: usize = 0;
    while i < count
        invariant
            i <= count,
            count == bytes@.len() / 2,
            bytes@.len() <= usize::MAX,
            samples@.len() == i,
            forall|k: int|
                0 <= k < i ==> samples@[k] == sample_of(bytes@[2 * k], bytes@[2 * k + 1]),
        decreases count - i,
    {
        let value: i32 = bytes[2 * i] as i32 + 256 * (bytes[2 * i + 1] as i32);
        let sample: i16 = if value >= 32768 {
            (value - 65536) as i16
        } else {
            value as i16
        };
        samples.push(sample);
        i += 1;
    }
    assert(samples@ =~= samples_of(bytes@));
    samples
}

} // verus!
