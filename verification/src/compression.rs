//! The compressed form of a fingerprint.
//!
//! A compressed fingerprint is a header of four bytes, a stream of packed
//! 3-bit values and a stream of packed 5-bit values:
//!
//! ```text
//! +--------+--------+--------+--------+==========+==========+
//! | algo   |  size (24 bits, highest  | normal   | except.  |
//! | (u8)   |         byte first)      | values   | values   |
//! +--------+--------+--------+--------+==========+==========+
//! ```
//!
//! Every sub-fingerprint is first combined by XOR with the one before it.
//! The positions of the set bits of the result, counted from 1 at the lowest
//! bit, are written as their gaps: each position less the one before, then a
//! zero that ends the word. A gap below 7 is a normal value; a larger one is
//! the normal value 7 and the exceptional value of the gap less 7.

use vstd::prelude::*;
use vstd::std_specs::convert::FromSpecImpl;
use crate::fingerprinter::Configuration;
use crate::packing::{
    iter_packed_intn_array, packed, packed_intn_array_len, packed_len, packed_value, read_packed,
};

verus! {

/// Number of bits of a normal value.
pub const NORMAL_BITS: u8 = 3;

/// The largest normal value, which says that an exceptional value follows.
pub const MAX_NORMAL_VALUE: u8 = 7;

/// Number of bits of an exceptional value.
pub const EXCEPTIONAL_BITS: u8 = 5;

/// Number of bytes of the header.
pub const HEADER_SIZE: usize = 4;

/// Whether bit `k` of `x` is set, counted from zero at the lowest.
pub open spec fn word_bit(x: u32, k: int) -> bool {
    0 <= k < 32 && (x >> (k as u32)) & 1 == 1
}

/// Item `i` of a fingerprint combined with the item before it.
pub open spec fn delta(fp: Seq<u32>, i: int) -> u32 {
    if i > 0 {
        fp[i] ^ fp[i - 1]
    } else {
        fp[i]
    }
}

/// The position of the highest set bit of `x` among its lowest `k` bits,
/// counted from 1, or 0 where none is set.
pub open spec fn last_set(x: u32, k: int) -> int
    decreases k,
{
    if k <= 0 {
        0
    } else if word_bit(x, k - 1) {
        k
    } else {
        last_set(x, k - 1)
    }
}

/// The gaps between the set bits of `x` among its lowest `k` bits.
pub open spec fn word_gaps(x: u32, k: int) -> Seq<u8>
    decreases k,
{
    if k <= 0 {
        Seq::empty()
    } else if word_bit(x, k - 1) {
        word_gaps(x, k - 1).push((k - last_set(x, k - 1)) as u8)
    } else {
        word_gaps(x, k - 1)
    }
}

/// The symbols of a word: the gaps between its set bits, and a zero.
pub open spec fn word_symbols(x: u32) -> Seq<u8> {
    word_gaps(x, 32).push(0)
}

/// The symbols of the first `n` items of a fingerprint.
pub open spec fn symbols(fp: Seq<u32>, n: int) -> Seq<u8>
    decreases n,
{
    if n <= 0 {
        Seq::empty()
    } else {
        symbols(fp, n - 1) + word_symbols(delta(fp, n - 1))
    }
}

/// The normal value of a symbol.
pub open spec fn normal_value(symbol: u8) -> u8 {
    if symbol >= MAX_NORMAL_VALUE {
        MAX_NORMAL_VALUE
    } else {
        symbol
    }
}

/// The normal values of a sequence of symbols: one for each.
pub open spec fn normal_of(syms: Seq<u8>) -> Seq<u8> {
    Seq::new(syms.len(), |i: int| normal_value(syms[i]))
}

/// The exceptional values of a sequence of symbols: one for each symbol from
/// 7 on.
pub open spec fn exceptional_of(syms: Seq<u8>) -> Seq<u8>
    decreases syms.len(),
{
    if syms.len() == 0 {
        Seq::empty()
    } else {
        let before = exceptional_of(syms.drop_last());
        if syms.last() >= MAX_NORMAL_VALUE {
            before.push((syms.last() - MAX_NORMAL_VALUE) as u8)
        } else {
            before
        }
    }
}

/// The header: the algorithm and the low 24 bits of the number of items.
pub open spec fn header(algorithm: u8, size: int) -> Seq<u8> {
    seq![
        algorithm,
        ((size / 0x1_0000) % 0x100) as u8,
        ((size / 0x100) % 0x100) as u8,
        (size % 0x100) as u8,
    ]
}

/// The compressed form of a fingerprint made by `algorithm`.
pub open spec fn compressed(algorithm: u8, fp: Seq<u32>) -> Seq<u8> {
    let syms = symbols(fp, fp.len() as int);
    header(algorithm, fp.len() as int) + packed(normal_of(syms), NORMAL_BITS as int) + packed(
        exceptional_of(syms),
        EXCEPTIONAL_BITS as int,
    )
}

/// The last set bit among the lowest `k` bits is at a position up to `k`.
pub proof fn lemma_last_set_range(x: u32, k: int)
    requires
        0 <= k <= 32,
    ensures
        0 <= last_set(x, k) <= k,
    decreases k,
{
    if k > 0 {
        lemma_last_set_range(x, k - 1);
    }
}

/// The lowest `k` bits have at most `k` gaps.
proof fn lemma_word_gaps_len(x: u32, k: int)
    requires
        0 <= k <= 32,
    ensures
        word_gaps(x, k).len() <= k,
    decreases k,
{
    if k > 0 {
        lemma_word_gaps_len(x, k - 1);
    }
}

/// An item has 33 symbols at most, and no more exceptional values than
/// symbols.
proof fn lemma_symbols_len(fp: Seq<u32>, n: int)
    requires
        0 <= n <= fp.len(),
    ensures
        symbols(fp, n).len() <= 33 * n,
        exceptional_of(symbols(fp, n)).len() <= symbols(fp, n).len(),
    decreases n,
{
    if n > 0 {
        lemma_symbols_len(fp, n - 1);
        lemma_word_gaps_len(delta(fp, n - 1), 32);
    }
    lemma_exceptional_len(symbols(fp, n));
}

/// There are no more exceptional values than symbols.
proof fn lemma_exceptional_len(syms: Seq<u8>)
    ensures
        exceptional_of(syms).len() <= syms.len(),
    decreases syms.len(),
{
    if syms.len() > 0 {
        lemma_exceptional_len(syms.drop_last());
    }
}

/// The exceptional values of a sequence with one more symbol.
pub proof fn lemma_exceptional_push(syms: Seq<u8>, symbol: u8)
    ensures
        exceptional_of(syms.push(symbol)) == if symbol >= MAX_NORMAL_VALUE {
            exceptional_of(syms).push((symbol - MAX_NORMAL_VALUE) as u8)
        } else {
            exceptional_of(syms)
        },
{
    assert(syms.push(symbol).drop_last() =~= syms);
}

/// A compressed fingerprint has fewer than 42 bytes for each item, and four
/// more.
pub proof fn lemma_compressed_len(algorithm: u8, fp: Seq<u32>)
    ensures
        compressed(algorithm, fp).len() <= 4 + 42 * fp.len(),
{
    lemma_symbols_len(fp, fp.len() as int);
}

/// Appends the symbols of one word to the two streams of values.
fn compress_subfingerprint(
    subfingerprint: u32,
    normal_bits: &mut Vec<u8>,
    exceptional_bits: &mut Vec<u8>,
    Ghost(syms): Ghost<Seq<u8>>,
)
    requires
        old(normal_bits)@ == normal_of(syms),
        old(exceptional_bits)@ == exceptional_of(syms),
    ensures
        final(normal_bits)@ == normal_of(syms + word_symbols(subfingerprint)),
        final(exceptional_bits)@ == exceptional_of(syms + word_symbols(subfingerprint)),
{
    let mut last_bit_index: u8 = 0;
    let mut bit_index: u8 = 0;
    while bit_index < 32
        invariant
            bit_index <= 32,
            last_bit_index == last_set(subfingerprint, bit_index as int),
            normal_bits@ == normal_of(syms + word_gaps(subfingerprint, bit_index as int)),
            exceptional_bits@ == exceptional_of(syms + word_gaps(subfingerprint, bit_index as int)),
        decreases 32 - bit_index,
    {
        let is_bit_set: bool = ((subfingerprint >> (bit_index as u32)) & 1) == 1;
        proof {
            lemma_last_set_range(subfingerprint, bit_index as int);
        }
        if is_bit_set {
            let position: u8 = bit_index + 1;
            let value: u8 = position - last_bit_index;
            let ghost before = syms + word_gaps(subfingerprint, bit_index as int);
            proof {
                lemma_exceptional_push(before, value);
                assert(before.push(value) =~= syms + word_gaps(subfingerprint, bit_index + 1));
                assert(normal_of(before.push(value)) =~= normal_of(before).push(
                    normal_value(value),
                ));
            }
            if value >= MAX_NORMAL_VALUE {
                normal_bits.push(MAX_NORMAL_VALUE);
                exceptional_bits.push(value - MAX_NORMAL_VALUE);
            } else {
                normal_bits.push(value);
            }
            last_bit_index = position;
        }
        bit_index += 1;
    }
    proof {
        let before = syms + word_gaps(subfingerprint, 32);
        lemma_exceptional_push(before, 0);
        assert(before.push(0) =~= syms + word_symbols(subfingerprint));
        assert(normal_of(before.push(0)) =~= normal_of(before).push(0));
    }
    normal_bits.push(0);
}

/// Compresses a fingerprint made by the algorithm number `algorithm`.
pub fn compress_fingerprint(algorithm: u8, fingerprint: &[u32]) -> (output: Vec<u8>)
    requires
        fingerprint@.len() * 165 + 7 <= usize::MAX,
    ensures
        output@ == compressed(algorithm, fingerprint@),
{
    let size: usize = fingerprint.len();
    let mut normal_bits: Vec<u8> = Vec::with_capacity(size);
    let mut exceptional_bits: Vec<u8> = Vec::with_capacity(size);
    let mut last_subfp: u32 = 0;
    let mut i: usize = 0;
    assert(normal_of(symbols(fingerprint@, 0)) =~= Seq::<u8>::empty());
    while i < size
        invariant
            i <= size,
            size == fingerprint@.len(),
            last_subfp == if i > 0 {
                fingerprint@[i - 1]
            } else {
                0
            },
            normal_bits@ == normal_of(symbols(fingerprint@, i as int)),
            exceptional_bits@ == exceptional_of(symbols(fingerprint@, i as int)),
        decreases size - i,
    {
        let current_subfp: u32 = fingerprint[i];
        let value: u32 = current_subfp ^ last_subfp;
        proof {
            assert(current_subfp ^ 0 == current_subfp) by (bit_vector);
            assert(value == delta(fingerprint@, i as int));
        }
        last_subfp = current_subfp;
        compress_subfingerprint(
            value,
            &mut normal_bits,
            &mut exceptional_bits,
            Ghost(symbols(fingerprint@, i as int)),
        );
        i += 1;
    }
    proof {
        lemma_symbols_len(fingerprint@, size as int);
        assert(normal_bits@.len() == symbols(fingerprint@, size as int).len());
    }
    let high: usize = (size >> 16) & 0xff;
    let middle: usize = (size >> 8) & 0xff;
    let low: usize = size & 0xff;
    proof {
        assert(((size >> 16) & 0xff) == (size / 0x1_0000) % 0x100) by (bit_vector);
        assert(((size >> 8) & 0xff) == (size / 0x100) % 0x100) by (bit_vector);
        assert((size & 0xff) == size % 0x100) by (bit_vector);
    }
    let mut output: Vec<u8> = Vec::new();
    output.push(algorithm);
    output.push(high as u8);
    output.push(middle as u8);
    output.push(low as u8);
    assert(output@ =~= header(algorithm, size as int));
    let mut normal_packed = iter_packed_intn_array::<3>(normal_bits.as_slice());
    let mut exceptional_packed = iter_packed_intn_array::<5>(exceptional_bits.as_slice());
    output.append(&mut normal_packed);
    output.append(&mut exceptional_packed);
    output
}

/// Why a byte string is not a compressed fingerprint.
#[derive(Debug, Clone, Copy, PartialEq, Eq, Structural)]
pub enum DecompressError {
    /// The bytes end before the fingerprint does, or a word has a set bit
    /// beyond its 32 bits.
    MalformedFingerprint,
}

/// The number of items that the header announces.
pub open spec fn header_size(bytes: Seq<u8>) -> int {
    bytes[1] * 0x1_0000 + bytes[2] * 0x100 + bytes[3]
}

/// How many normal values there are up to the last of `zeros` zeros, counted
/// from value `k` on; nothing where the bytes end before that.
pub open spec fn scan_normal(body: Seq<u8>, k: int, zeros: int) -> Option<int>
    decreases 8 * body.len() - 3 * k,
{
    if zeros <= 0 {
        Some(k)
    } else if k < 0 || 3 * (k + 1) > 8 * body.len() {
        None
    } else {
        scan_normal(
            body,
            k + 1,
            if packed_value(body, NORMAL_BITS as int, k) == 0 {
                zeros - 1
            } else {
                zeros
            },
        )
    }
}

/// How many of the first `k` normal values say that an exceptional value
/// follows.
pub open spec fn sevens(normal: Seq<u8>, k: int) -> int
    decreases k,
{
    if k <= 0 {
        0
    } else {
        sevens(normal, k - 1) + if normal[k - 1] == MAX_NORMAL_VALUE {
            1int
        } else {
            0int
        }
    }
}

/// The state of decoding: the number of exceptional values used, the
/// position of the last set bit of the word that is being read, that word,
/// the items read so far, and whether a bit beyond the word was met.
pub type Decoding = (int, int, u32, Seq<u32>, bool);

/// The item that ends with the word `word`, after the items `items`.
pub open spec fn next_item(items: Seq<u32>, word: u32) -> u32 {
    if items.len() > 0 {
        word ^ items.last()
    } else {
        word
    }
}

/// The state after one more normal value.
pub open spec fn decode_step(state: Decoding, value: u8, exceptional: Seq<u8>) -> Decoding {
    let (used, position, word, items, failed) = state;
    if failed {
        state
    } else if value == 0 {
        (used, 0, 0, items.push(next_item(items, word)), false)
    } else {
        let gap = if value == MAX_NORMAL_VALUE {
            MAX_NORMAL_VALUE + exceptional[used]
        } else {
            value as int
        };
        let next_used = if value == MAX_NORMAL_VALUE {
            used + 1
        } else {
            used
        };
        if position + gap > 32 {
            (next_used, position + gap, word, items, true)
        } else {
            (
                next_used,
                position + gap,
                word | (1u32 << ((position + gap - 1) as u32)),
                items,
                false,
            )
        }
    }
}

/// The state after the first `k` normal values.
pub open spec fn decode(normal: Seq<u8>, exceptional: Seq<u8>, k: int) -> Decoding
    decreases k,
{
    if k <= 0 {
        (0, 0, 0, Seq::empty(), false)
    } else {
        decode_step(decode(normal, exceptional, k - 1), normal[k - 1], exceptional)
    }
}

/// The algorithm and the fingerprint that `bytes` hold in compressed form, or
/// nothing where they hold none.
pub open spec fn decompressed(bytes: Seq<u8>) -> Option<(u8, Seq<u32>)> {
    if bytes.len() < HEADER_SIZE {
        None
    } else {
        let body = bytes.skip(HEADER_SIZE as int);
        match scan_normal(body, 0, header_size(bytes)) {
            None => None,
            Some(count) => {
                let normal = Seq::new(
                    count as nat,
                    |k: int| packed_value(body, NORMAL_BITS as int, k),
                );
                let tail = body.skip(packed_len(count, NORMAL_BITS as int));
                let needed = sevens(normal, count);
                if EXCEPTIONAL_BITS * needed > 8 * tail.len() {
                    None
                } else {
                    let exceptional = Seq::new(
                        needed as nat,
                        |i: int| packed_value(tail, EXCEPTIONAL_BITS as int, i),
                    );
                    let state = decode(normal, exceptional, count);
                    if state.4 {
                        None
                    } else {
                        Some((bytes[0], state.3))
                    }
                }
            },
        }
    }
}

/// Among `k` values at most `k` say that an exceptional value follows.
pub proof fn lemma_sevens_range(normal: Seq<u8>, k: int)
    requires
        0 <= k,
    ensures
        0 <= sevens(normal, k) <= k,
    decreases k,
{
    if k > 0 {
        lemma_sevens_range(normal, k - 1);
    }
}

/// More values have no fewer of them that say that an exceptional value
/// follows.
proof fn lemma_sevens_grow(normal: Seq<u8>, k: int, c: int)
    requires
        0 <= k <= c,
    ensures
        sevens(normal, k) <= sevens(normal, c),
    decreases c - k,
{
    if k < c {
        lemma_sevens_grow(normal, k, c - 1);
    }
}

/// While decoding has not failed, it has used one exceptional value for each
/// normal value that asked for one, and stands inside the word.
proof fn lemma_decode_used(normal: Seq<u8>, exceptional: Seq<u8>, k: int)
    requires
        0 <= k,
    ensures
        decode(normal, exceptional, k).4 || (decode(normal, exceptional, k).0 == sevens(normal, k)
            && 0 <= decode(normal, exceptional, k).1 <= 32),
    decreases k,
{
    if k > 0 {
        lemma_decode_used(normal, exceptional, k - 1);
    }
}

/// Reads the normal values up to the last of `size` zeros.
fn scan_normal_values(body: &[u8], size: usize) -> (found: Option<(Vec<u8>, usize)>)
    requires
        8 * body@.len() <= usize::MAX,
    ensures
        found is None <==> scan_normal(body@, 0, size as int) is None,
        found is Some ==> {
            let (normal, needed) = found->0;
            &&& scan_normal(body@, 0, size as int) == Some(normal@.len() as int)
            &&& normal@ == Seq::new(
                normal@.len(),
                |k: int| packed_value(body@, NORMAL_BITS as int, k),
            )
            &&& needed == sevens(normal@, normal@.len() as int)
            &&& 3 * normal@.len() <= 8 * body@.len()
        },
{
    let mut normal: Vec<u8> = Vec::new();
    let mut needed: usize = 0;
    let mut zeros: usize = size;
    let mut k: usize = 0;
    while zeros > 0
        invariant
            8 * body@.len() <= usize::MAX,
            3 * k <= 8 * body@.len(),
            normal@.len() == k,
            scan_normal(body@, 0, size as int) == scan_normal(body@, k as int, zeros as int),
            forall|i: int| 0 <= i < k ==> normal@[i] == packed_value(body@, NORMAL_BITS as int, i),
            needed == sevens(normal@, k as int),
            needed <= k,
        decreases 8 * body@.len() - 3 * k,
    {
        if 3 * (k + 1) > 8 * body.len() {
            return None;
        }
        let value: u8 = read_packed::<3>(body, k);
        let ghost before = normal@;
        normal.push(value);
        proof {
            lemma_sevens_same(before, normal@, k as int);
        }
        if value == 0 {
            zeros -= 1;
        }
        if value == MAX_NORMAL_VALUE {
            needed += 1;
        }
        k += 1;
    }
    assert(normal@ =~= Seq::new(normal@.len(), |k: int| packed_value(body@, NORMAL_BITS as int, k)));
    Some((normal, needed))
}

/// Sequences that begin with the same `k` values have as many among them that
/// say that an exceptional value follows.
proof fn lemma_sevens_same(a: Seq<u8>, b: Seq<u8>, k: int)
    requires
        0 <= k <= a.len(),
        k <= b.len(),
        forall|i: int| 0 <= i < k ==> a[i] == b[i],
    ensures
        sevens(a, k) == sevens(b, k),
    decreases k,
{
    if k > 0 {
        lemma_sevens_same(a, b, k - 1);
    }
}

/// Reads the first `count` exceptional values.
fn read_exceptional_values(tail: &[u8], count: usize) -> (values: Vec<u8>)
    requires
        5 * count <= 8 * tail@.len() <= usize::MAX,
    ensures
        values@ == Seq::new(count as nat, |i: int| packed_value(tail@, EXCEPTIONAL_BITS as int, i)),
{
    let mut values: Vec<u8> = Vec::with_capacity(count);
    let mut i: usize = 0;
    while i < count
        invariant
            5 * count <= 8 * tail@.len() <= usize::MAX,
            i <= count,
            values@.len() == i,
            forall|k: int|
                0 <= k < i ==> values@[k] == packed_value(tail@, EXCEPTIONAL_BITS as int, k),
        decreases count - i,
    {
        values.push(read_packed::<5>(tail, i));
        i += 1;
    }
    assert(values@ =~= Seq::new(
        count as nat,
        |i: int| packed_value(tail@, EXCEPTIONAL_BITS as int, i),
    ));
    values
}

/// Puts the words together from the two streams of values and undoes the
/// XOR of neighbouring items.
fn decode_values(normal: &Vec<u8>, exceptional: &Vec<u8>) -> (items: Option<Vec<u32>>)
    requires
        exceptional@.len() == sevens(normal@, normal@.len() as int),
    ensures
        items is None <==> decode(normal@, exceptional@, normal@.len() as int).4,
        items is Some ==> items->0@ == decode(normal@, exceptional@, normal@.len() as int).3,
{
    let mut items: Vec<u32> = Vec::new();
    let mut used: usize = 0;
    let mut position: u32 = 0;
    let mut word: u32 = 0;
    let mut last: u32 = 0;
    let mut k: usize = 0;
    while k < normal.len()
        invariant
            k <= normal@.len(),
            exceptional@.len() == sevens(normal@, normal@.len() as int),
            position <= 32,
            decode(normal@, exceptional@, k as int) == (
                used as int,
                position as int,
                word,
                items@,
                false,
            ),
            last == if items@.len() > 0 {
                items@.last()
            } else {
                0
            },
        decreases normal@.len() - k,
    {
        let value: u8 = normal[k];
        proof {
            lemma_decode_used(normal@, exceptional@, k as int);
            lemma_sevens_grow(normal@, k + 1, normal@.len() as int);
            lemma_sevens_range(normal@, k as int);
        }
        if value == 0 {
            proof {
                assert(word ^ 0 == word) by (bit_vector);
            }
            last = word ^ last;
            items.push(last);
            position = 0;
            word = 0;
        } else {
            let gap: u32 = if value == MAX_NORMAL_VALUE {
                let extra: u8 = exceptional[used];
                used += 1;
                MAX_NORMAL_VALUE as u32 + extra as u32
            } else {
                value as u32
            };
            position = position + gap;
            if position > 32 {
                proof {
                    lemma_decode_failed(normal@, exceptional@, k + 1, normal@.len() as int);
                }
                return None;
            }
            word = word | (1u32 << (position - 1));
        }
        k += 1;
    }
    Some(items)
}

/// Decoding that has failed stays failed.
proof fn lemma_decode_failed(normal: Seq<u8>, exceptional: Seq<u8>, k: int, c: int)
    requires
        0 <= k <= c,
        decode(normal, exceptional, k).4,
    ensures
        decode(normal, exceptional, c).4,
    decreases c - k,
{
    if k < c {
        lemma_decode_failed(normal, exceptional, k, c - 1);
    }
}

/// Reads a compressed fingerprint: the number of the algorithm that made it,
/// and its items.
///
/// Bytes that end before the header, the normal values or the exceptional
/// values are complete, or that hold a word with a bit beyond its 32 bits,
/// are refused. What follows the last exceptional value is not read.
pub fn decompress_fingerprint(bytes: &[u8]) -> (result: Result<(u8, Vec<u32>), DecompressError>)
    requires
        8 * bytes@.len() <= usize::MAX,
    ensures
        result is Err <==> decompressed(bytes@) is None,
        result is Ok ==> decompressed(bytes@) == Some((result->Ok_0.0, result->Ok_0.1@)),
{
    let len: usize = bytes.len();
    if len < HEADER_SIZE {
        return Err(DecompressError::MalformedFingerprint);
    }
    let algorithm: u8 = bytes[0];
    let size: usize = (bytes[1] as usize) * 0x1_0000 + (bytes[2] as usize) * 0x100 + (
    bytes[3] as usize);
    let body = vstd::slice::slice_subrange(bytes, HEADER_SIZE, len);
    assert(body@ =~= bytes@.skip(HEADER_SIZE as int));
    match scan_normal_values(body, size) {
        None => Err(DecompressError::MalformedFingerprint),
        Some((normal, needed)) => {
            let offset: usize = packed_intn_array_len(normal.len(), 3);
            let tail = vstd::slice::slice_subrange(body, offset, body.len());
            assert(tail@ =~= body@.skip(offset as int));
            if needed > 8 * tail.len() / 5 {
                return Err(DecompressError::MalformedFingerprint);
            }
            let exceptional = read_exceptional_values(tail, needed);
            match decode_values(&normal, &exceptional) {
                None => Err(DecompressError::MalformedFingerprint),
                Some(items) => Ok((algorithm, items)),
            }
        },
    }
}

/// Compresses the fingerprints of one algorithm.
pub struct FingerprintCompressor<'a>(pub &'a Configuration);

impl<'a> FingerprintCompressor<'a> {
    /// Compresses a fingerprint. The header carries the number of the
    /// algorithm and the low 24 bits of the number of items.
    pub fn compress(&self, fingerprint: &[u32]) -> (output: Vec<u8>)
        requires
            fingerprint@.len() * 165 + 7 <= usize::MAX,
        ensures
            output@ == compressed(self.0.spec_id(), fingerprint@),
    {
        compress_fingerprint(self.0.id(), fingerprint)
    }
}

impl<'a> From<&'a Configuration> for FingerprintCompressor<'a> {
    fn from(value: &'a Configuration) -> (compressor: Self) {
        Self(value)
    }
}

impl<'a> FromSpecImpl<&'a Configuration> for FingerprintCompressor<'a> {
    open spec fn obeys_from_spec() -> bool {
        true
    }

    open spec fn from_spec(value: &'a Configuration) -> Self {
        FingerprintCompressor(value)
    }
}

} // verus!
