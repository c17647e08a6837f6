//! Fingerprints as text.
//!
//! A fingerprint is written either raw, as its items in decimal with commas
//! between them, or compressed and then encoded with the URL-safe base64
//! alphabet, without padding.

use base64::prelude::{Engine, BASE64_URL_SAFE_NO_PAD};
use vstd::prelude::*;
use crate::compression::{compress_fingerprint, compressed};
use crate::fingerprinter::Configuration;
use crate::utils::{ascii_string, decimal, lemma_decimal_ascii, push_decimal};

verus! {

/// The character that stands for the six bits `value` in the URL-safe
/// base64 alphabet: `A` to `Z`, `a` to `z`, `0` to `9`, `-` and `_`.
pub open spec fn base64_char(value: int) -> char {
    if value < 26 {
        (65 + value) as u8 as char
    } else if value < 52 {
        (97 + value - 26) as u8 as char
    } else if value < 62 {
        (48 + value - 52) as u8 as char
    } else if value == 62 {
        '-'
    } else {
        '_'
    }
}

/// The byte at `i`, or zero behind the last byte.
pub open spec fn byte_or_zero(bytes: Seq<u8>, i: int) -> int {
    if 0 <= i < bytes.len() {
        bytes[i] as int
    } else {
        0
    }
}

/// The `k`-th group of six bits of `bytes`, the highest bit of each byte
/// first, with zero bits behind the last byte.
pub open spec fn sextet(bytes: Seq<u8>, k: int) -> int {
    let first = 3 * (k / 4);
    if k % 4 == 0 {
        byte_or_zero(bytes, first) / 4
    } else if k % 4 == 1 {
        byte_or_zero(bytes, first) % 4 * 16 + byte_or_zero(bytes, first + 1) / 16
    } else if k % 4 == 2 {
        byte_or_zero(bytes, first + 1) % 16 * 4 + byte_or_zero(bytes, first + 2) / 64
    } else {
        byte_or_zero(bytes, first + 2) % 64
    }
}

/// Number of characters that `len` bytes take in base64 without padding:
/// four for every three bytes, and two or three for one or two bytes more.
pub open spec fn base64_len(len: int) -> int {
    len / 3 * 4 + if len % 3 == 0 {
        0int
    } else if len % 3 == 1 {
        2int
    } else {
        3int
    }
}

/// The URL-safe base64 text of `bytes`, without padding.
pub open spec fn base64_text(bytes: Seq<u8>) -> Seq<char> {
    Seq::new(base64_len(bytes.len() as int) as nat, |k: int| base64_char(sextet(bytes, k)))
}

/// `Engine::encode` of the base64 crate, with its engine
/// `BASE64_URL_SAFE_NO_PAD`: the text has one character of the URL-safe
/// alphabet for every six bits of the bytes, the highest bits first, and no
/// padding. The bytes must be so few that the length of the text can be
/// counted.
#[verifier::external_body]
fn base64_url_encode(bytes: &[u8]) -> (text: String)
    requires
        bytes@.len() / 3 * 4 + 3 <= usize::MAX,
    ensures
        text@ == base64_text(bytes@),
{
    BASE64_URL_SAFE_NO_PAD.encode(bytes)
}

/// The digits of `value`, with a minus sign before them where it is below
/// zero.
pub open spec fn signed_decimal(value: int) -> Seq<u8> {
    if value < 0 {
        seq![45u8] + decimal((-value) as nat)
    } else {
        decimal(value as nat)
    }
}

/// An item as the number that it is written as: itself, or the number below
/// zero that has the same 32 bits.
pub open spec fn item_value(item: u32, signed: bool) -> int {
    if signed && item >= 0x8000_0000 {
        item - 0x1_0000_0000
    } else {
        item as int
    }
}

/// The first `k` items of a fingerprint in decimal, with commas between
/// them.
pub open spec fn raw_text(fp: Seq<u32>, signed: bool, k: int) -> Seq<u8>
    decreases k,
{
    if k <= 0 {
        Seq::empty()
    } else if k == 1 {
        signed_decimal(item_value(fp[0], signed))
    } else {
        raw_text(fp, signed, k - 1) + seq![44u8] + signed_decimal(item_value(fp[k - 1], signed))
    }
}

/// The characters of ASCII bytes.
pub open spec fn ascii_chars(bytes: Seq<u8>) -> Seq<char> {
    Seq::new(bytes.len(), |i: int| bytes[i] as char)
}

/// The text of a fingerprint: raw where `raw` is set, with the items
/// written as signed numbers where `signed` is set as well; else compressed
/// for the algorithm of `config`, in base64.
pub open spec fn fingerprint_text_spec(
    algorithm: u8,
    fp: Seq<u32>,
    raw: bool,
    signed: bool,
) -> Seq<char> {
    if raw {
        ascii_chars(raw_text(fp, signed, fp.len() as int))
    } else {
        base64_text(compressed(algorithm, fp))
    }
}

/// Whether all of `bytes` are ASCII.
spec fn all_ascii(bytes: Seq<u8>) -> bool {
    forall|i: int| 0 <= i < bytes.len() ==> #[trigger] bytes[i] < 128
}

/// Two sequences of ASCII bytes are one when joined.
proof fn lemma_ascii_concat(a: Seq<u8>, b: Seq<u8>)
    requires
        all_ascii(a),
        all_ascii(b),
    ensures
        all_ascii(a + b),
{
    assert forall|i: int| 0 <= i < (a + b).len() implies #[trigger] (a + b)[i] < 128 by {
        if i < a.len() {
            assert((a + b)[i] == a[i]);
        } else {
            assert((a + b)[i] == b[i - a.len()]);
        }
    }
}

/// A number in decimal is written in ASCII.
proof fn lemma_signed_decimal_ascii(value: int)
    ensures
        all_ascii(signed_decimal(value)),
{
    if value < 0 {
        lemma_decimal_ascii((-value) as nat);
        assert(all_ascii(decimal((-value) as nat)));
        assert(all_ascii(seq![45u8]));
        lemma_ascii_concat(seq![45u8], decimal((-value) as nat));
    } else {
        lemma_decimal_ascii(value as nat);
    }
}

/// A raw fingerprint is written in ASCII.
proof fn lemma_raw_text_ascii(fp: Seq<u32>, signed: bool, k: int)
    requires
        0 <= k <= fp.len(),
    ensures
        all_ascii(raw_text(fp, signed, k)),
    decreases k,
{
    if k >= 1 {
        let value = item_value(fp[k - 1], signed);
        lemma_signed_decimal_ascii(value);
        if k > 1 {
            lemma_raw_text_ascii(fp, signed, k - 1);
            assert(all_ascii(seq![44u8]));
            lemma_ascii_concat(raw_text(fp, signed, k - 1), seq![44u8]);
            lemma_ascii_concat(raw_text(fp, signed, k - 1) + seq![44u8], signed_decimal(value));
        }
    }
}

/// Writes the items of a fingerprint in decimal, with commas between them.
/// Where `signed` is set, an item from 2^31 on is written as the number
/// below zero that has the same 32 bits.
pub fn raw_fingerprint_text(fingerprint: &[u32], signed: bool) -> (text: String)
    ensures
        text@ == ascii_chars(raw_text(fingerprint@, signed, fingerprint@.len() as int)),
{
    let mut bytes: Vec<u8> = Vec::new();
    let mut k: usize = 0;
    while k < fingerprint.len()
        invariant
            k <= fingerprint@.len(),
            bytes@ == raw_text(fingerprint@, signed, k as int),
        decreases fingerprint@.len() - k,
    {
        let ghost before = bytes@;
        if k > 0 {
            bytes.push(44);
        }
        let item: u32 = fingerprint[k];
        if signed && item >= 0x8000_0000 {
            bytes.push(45);
            push_decimal(&mut bytes, 0x1_0000_0000u64 - item as u64);
        } else {
            push_decimal(&mut bytes, item as u64);
        }
        proof {
            let value = item_value(item, signed);
            if k == 0 {
                assert(before =~= Seq::<u8>::empty());
                assert(bytes@ =~= signed_decimal(value));
            } else {
                assert(bytes@ =~= before + seq![44u8] + signed_decimal(value));
            }
        }
        k += 1;
    }
    proof {
        lemma_raw_text_ascii(fingerprint@, signed, fingerprint@.len() as int);
    }
    ascii_string(bytes)
}

/// Compresses a fingerprint for the algorithm of `config` and encodes the
/// bytes in base64.
pub fn encode_fingerprint(config: &Configuration, fingerprint: &[u32]) -> (text: String)
    requires
        fingerprint@.len() * 165 + 7 <= usize::MAX,
    ensures
        text@ == base64_text(compressed(config.spec_id(), fingerprint@)),
{
    let compressed_fingerprint = compress_fingerprint(config.id(), fingerprint);
    proof {
        crate::compression::lemma_compressed_len(config.spec_id(), fingerprint@);
    }
    base64_url_encode(compressed_fingerprint.as_slice())
}

/// Writes a fingerprint as text: raw where `raw` is set, with the items
/// written as signed numbers where `signed` is set as well; else compressed
/// and encoded in base64.
pub fn fingerprint_text(config: &Configuration, fingerprint: &[u32], raw: bool, signed: bool) -> (text:
    String)
    requires
        fingerprint@.len() * 165 + 7 <= usize::MAX,
    ensures
        text@ == fingerprint_text_spec(config.spec_id(), fingerprint@, raw, raw && signed),
{
    if raw {
        if signed {
            raw_fingerprint_text(fingerprint, true)
        } else {
            raw_fingerprint_text(fingerprint, false)
        }
    } else {
        encode_fingerprint(config, fingerprint)
    }
}

} // verus!
