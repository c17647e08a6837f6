//! Compressing a fingerprint and reading it back gives the fingerprint.

use vstd::prelude::*;
use crate::compression::{
    lemma_exceptional_push, lemma_last_set_range,
    compressed, decode, decode_step, decompressed, delta, exceptional_of, header, header_size,
    last_set, next_item, normal_of, normal_value, scan_normal, sevens, symbols, word_bit,
    word_gaps, word_symbols, Decoding, EXCEPTIONAL_BITS, HEADER_SIZE, MAX_NORMAL_VALUE,
    NORMAL_BITS,
};
use crate::packing::{
    bit, byte_bit, fits, byte_of, lemma_byte_ext, lemma_byte_of, lemma_packed_bit, packed, packed_len,
    packed_value, stream_bit,
};

verus! {

/// A value up to 7 fits in three bits.
proof fn lemma_fits_three(value: u8)
    requires
        value <= 7,
    ensures
        fits(value, 3),
{
    assert forall|t: u8| 3 <= t < 8 implies !bit(value, t) by {
        assert(value <= 7 && 3 <= t < 8 ==> !(t < 8 && (value >> t) & 1 == 1)) by (bit_vector);
    }
}

/// A value up to 31 fits in five bits.
proof fn lemma_fits_five(value: u8)
    requires
        value <= 31,
    ensures
        fits(value, 5),
{
    assert forall|t: u8| 5 <= t < 8 implies !bit(value, t) by {
        assert(value <= 31 && 5 <= t < 8 ==> !(t < 8 && (value >> t) & 1 == 1)) by (bit_vector);
    }
}

/// Reading value `k` of packed values that are followed by other bytes gives
/// the value that was packed.
pub proof fn lemma_read_back(values: Seq<u8>, n: int, rest: Seq<u8>, k: int)
    requires
        1 <= n <= 8,
        0 <= k < values.len(),
        fits(values[k], n),
    ensures
        packed_value(packed(values, n) + rest, n, k) == values[k],
{
    let p = packed(values, n);
    let bytes = p + rest;
    let f = |t: int| t < n && byte_bit(bytes, k * n + t);
    let got = packed_value(bytes, n, k);
    assert forall|t: u8| t < 8 implies bit(got, t) == bit(values[k], t) by {
        lemma_byte_of(f, t);
        if t < n {
            let g = k * n + t;
            assert(0 <= g < values.len() * n) by (nonlinear_arith)
                requires
                    0 <= k,
                    k + 1 <= values.len(),
                    0 <= t < n,
                    g == k * n + t,
            ;
            assert(g < 8 * p.len());
            assert(bytes[g / 8] == p[g / 8]);
            assert(byte_bit(bytes, g) == byte_bit(p, g));
            lemma_packed_bit(values, n, g);
            vstd::arithmetic::div_mod::lemma_fundamental_div_mod_converse(g, n, k, t as int);
        }
    }
    lemma_byte_ext(got, values[k]);
}

/// Every gap of a word is at least 1 and at most 32.
proof fn lemma_gap_values(x: u32, k: int)
    requires
        0 <= k <= 32,
    ensures
        forall|i: int| 0 <= i < word_gaps(x, k).len() ==> 1 <= #[trigger] word_gaps(x, k)[i] <= 32,
    decreases k,
{
    if k > 0 {
        lemma_gap_values(x, k - 1);
        lemma_last_set_range(x, k - 1);
        let shorter = word_gaps(x, k - 1);
        assert forall|i: int| 0 <= i < word_gaps(x, k).len() implies 1 <= #[trigger] word_gaps(
            x,
            k,
        )[i] <= 32 by {
            if i < shorter.len() {
                assert(word_gaps(x, k)[i] == shorter[i]);
            }
        }
    }
}

/// The gaps among fewer bits begin the gaps among more.
proof fn lemma_gaps_prefix(x: u32, b: int, c: int)
    requires
        0 <= b <= c <= 32,
    ensures
        word_gaps(x, b).len() <= word_gaps(x, c).len(),
        word_gaps(x, c).take(word_gaps(x, b).len() as int) == word_gaps(x, b),
    decreases c - b,
{
    if b < c {
        lemma_gaps_prefix(x, b, c - 1);
        let shorter = word_gaps(x, c - 1);
        let longer = word_gaps(x, c);
        let len = word_gaps(x, b).len() as int;
        assert(longer.take(len) =~= shorter.take(len));
    } else {
        assert(word_gaps(x, c).take(word_gaps(x, b).len() as int) =~= word_gaps(x, b));
    }
}

/// The symbols of fewer items begin the symbols of more.
proof fn lemma_symbols_prefix(fp: Seq<u32>, m: int, n: int)
    requires
        0 <= m <= n,
    ensures
        symbols(fp, m).len() <= symbols(fp, n).len(),
        symbols(fp, n).take(symbols(fp, m).len() as int) == symbols(fp, m),
    decreases n - m,
{
    if m < n {
        lemma_symbols_prefix(fp, m, n - 1);
        let len = symbols(fp, m).len() as int;
        assert(symbols(fp, n).take(len) =~= symbols(fp, n - 1).take(len));
    } else {
        assert(symbols(fp, n).take(symbols(fp, m).len() as int) =~= symbols(fp, m));
    }
}

/// The symbols read when `m` items and the lowest `b` bits of the next are
/// done.
spec fn progress(fp: Seq<u32>, m: int, b: int) -> Seq<u8> {
    symbols(fp, m) + word_gaps(delta(fp, m), b)
}

/// The symbols of a fingerprint begin with those of any progress through it,
/// and go on with the next gap or with the zero that ends the word.
proof fn lemma_progress(fp: Seq<u32>, n: int, m: int, b: int)
    requires
        0 <= m < n,
        0 <= b <= 32,
    ensures
        progress(fp, m, b).len() < symbols(fp, n).len(),
        symbols(fp, n).take(progress(fp, m, b).len() as int) == progress(fp, m, b),
        b < 32 && word_bit(delta(fp, m), b) ==> symbols(fp, n)[progress(fp, m, b).len() as int]
            == b + 1 - last_set(delta(fp, m), b),
        b == 32 ==> symbols(fp, n)[progress(fp, m, b).len() as int] == 0,
        forall|i: int| 0 <= i < symbols(fp, n).len() ==> #[trigger] symbols(fp, n)[i] <= 32,
{
    let x = delta(fp, m);
    let s = symbols(fp, n);
    let next = symbols(fp, m + 1);
    let p = progress(fp, m, b);
    lemma_symbols_prefix(fp, m + 1, n);
    lemma_gaps_prefix(x, b, 32);
    assert(next == symbols(fp, m) + word_gaps(x, 32).push(0));
    assert(s.take(p.len() as int) =~= p) by {
        assert(next.take(p.len() as int) =~= p) by {
            assert forall|i: int| 0 <= i < p.len() implies next[i] == p[i] by {
                if i >= symbols(fp, m).len() {
                    let j = i - symbols(fp, m).len();
                    assert(word_gaps(x, 32).take(word_gaps(x, b).len() as int)[j] == word_gaps(
                        x,
                        32,
                    )[j]);
                }
            }
        }
        assert(s.take(next.len() as int).take(p.len() as int) =~= s.take(p.len() as int));
    }
    assert(s[p.len() as int] == s.take(next.len() as int)[p.len() as int]);
    if b < 32 && word_bit(x, b) {
        lemma_gaps_prefix(x, b + 1, 32);
        lemma_last_set_range(x, b);
        let g = word_gaps(x, b + 1);
        assert(g == word_gaps(x, b + 1 - 1).push((b + 1 - last_set(x, b + 1 - 1)) as u8));
        assert(g[word_gaps(x, b).len() as int] == b + 1 - last_set(x, b));
        assert(word_gaps(x, 32).take(g.len() as int)[word_gaps(x, b).len() as int] == word_gaps(
            x,
            32,
        )[word_gaps(x, b).len() as int]);
        lemma_last_set_range(x, b);
    }
    lemma_symbol_values(fp, n);
}

/// No symbol is above 32.
proof fn lemma_symbol_values(fp: Seq<u32>, n: int)
    requires
        0 <= n,
    ensures
        forall|i: int| 0 <= i < symbols(fp, n).len() ==> #[trigger] symbols(fp, n)[i] <= 32,
    decreases n,
{
    if n > 0 {
        lemma_symbol_values(fp, n - 1);
        lemma_gap_values(delta(fp, n - 1), 32);
        let before = symbols(fp, n - 1);
        let word = word_symbols(delta(fp, n - 1));
        assert forall|i: int| 0 <= i < symbols(fp, n).len() implies #[trigger] symbols(fp, n)[i]
            <= 32 by {
            if i < before.len() {
                assert(symbols(fp, n)[i] == before[i]);
            } else {
                let j = i - before.len();
                assert(symbols(fp, n)[i] == word[j]);
                if j < word_gaps(delta(fp, n - 1), 32).len() {
                    assert(word[j] == word_gaps(delta(fp, n - 1), 32)[j]);
                }
            }
        }
    }
}

/// The exceptional values of the first symbols begin those of all symbols.
proof fn lemma_exceptional_prefix(syms: Seq<u8>, k: int)
    requires
        0 <= k <= syms.len(),
    ensures
        exceptional_of(syms.take(k)).len() <= exceptional_of(syms).len(),
        forall|i: int|
            0 <= i < exceptional_of(syms.take(k)).len() ==> exceptional_of(syms)[i]
                == #[trigger] exceptional_of(syms.take(k))[i],
        k < syms.len() && syms[k] >= MAX_NORMAL_VALUE ==> exceptional_of(syms.take(k)).len()
            < exceptional_of(syms).len() && exceptional_of(syms)[exceptional_of(
            syms.take(k),
        ).len() as int] == syms[k] - MAX_NORMAL_VALUE,
    decreases syms.len() - k,
{
    if k < syms.len() {
        lemma_exceptional_prefix(syms, k + 1);
        assert(syms.take(k + 1) =~= syms.take(k).push(syms[k]));
        lemma_exceptional_push(syms.take(k), syms[k]);
        let shorter = exceptional_of(syms.take(k));
        let longer = exceptional_of(syms.take(k + 1));
        assert forall|i: int| 0 <= i < shorter.len() implies exceptional_of(syms)[i]
            == #[trigger] shorter[i] by {
            assert(longer[i] == shorter[i]);
        }
        if syms[k] >= MAX_NORMAL_VALUE {
            assert(longer[shorter.len() as int] == syms[k] - MAX_NORMAL_VALUE);
        }
    } else {
        assert(syms.take(k) =~= syms);
    }
}

/// As many normal values say that an exceptional value follows as there are
/// exceptional values.
proof fn lemma_sevens(syms: Seq<u8>, k: int)
    requires
        0 <= k <= syms.len(),
    ensures
        sevens(normal_of(syms), k) == exceptional_of(syms.take(k)).len(),
    decreases k,
{
    if k > 0 {
        lemma_sevens(syms, k - 1);
        assert(syms.take(k) =~= syms.take(k - 1).push(syms[k - 1]));
        lemma_exceptional_push(syms.take(k - 1), syms[k - 1]);
    } else {
        assert(syms.take(0) =~= Seq::<u8>::empty());
    }
}

/// The lowest `b` bits of `x`.
spec fn low_bits(x: u32, b: int) -> u32 {
    if b >= 32 {
        x
    } else if b <= 0 {
        0
    } else {
        x & !(0xffff_ffffu32 << (b as u32))
    }
}

/// The lowest `b + 1` bits are the lowest `b` bits, with bit `b` where it is
/// set.
proof fn lemma_low_bits_step(x: u32, b: u32)
    by (bit_vector)
    requires
        b < 32,
    ensures
        (x >> b) & 1 == 1 ==> (if b == 0 {
            0u32
        } else {
            x & !(0xffff_ffffu32 << b)
        }) | (1u32 << b) == (if b == 31 {
            x
        } else {
            x & !(0xffff_ffffu32 << ((b + 1) as u32))
        }),
        (x >> b) & 1 != 1 ==> (if b == 0 {
            0u32
        } else {
            x & !(0xffff_ffffu32 << b)
        }) == (if b == 31 {
            x
        } else {
            x & !(0xffff_ffffu32 << ((b + 1) as u32))
        }),
{
}

/// Combining twice with the same item gives the first item back.
proof fn lemma_xor_back(a: u32, b: u32)
    by (bit_vector)
    ensures
        (a ^ b) ^ b == a,
{
}

/// The state that decoding is in when `m` items and the lowest `b` bits of
/// the next are done.
spec fn expected_state(fp: Seq<u32>, m: int, b: int) -> Decoding {
    (
        exceptional_of(progress(fp, m, b)).len() as int,
        last_set(delta(fp, m), b),
        low_bits(delta(fp, m), b),
        fp.take(m),
        false,
    )
}

/// Decoding the values of a fingerprint goes through the states that the
/// encoder went through.
proof fn lemma_decode_progress(fp: Seq<u32>, n: int, m: int, b: int)
    requires
        0 <= m <= n <= fp.len(),
        0 <= b <= 32,
        m == n ==> b == 0,
    ensures
        decode(
            normal_of(symbols(fp, n)),
            exceptional_of(symbols(fp, n)),
            progress(fp, m, b).len() as int,
        ) == expected_state(fp, m, b),
    decreases m, b,
{
    let s = symbols(fp, n);
    let normal = normal_of(s);
    let exceptional = exceptional_of(s);
    let x = delta(fp, m);
    let p = progress(fp, m, b);
    if b == 0 {
        assert(p =~= symbols(fp, m));
        if m == 0 {
            assert(p =~= Seq::<u8>::empty());
            assert(fp.take(0) =~= Seq::<u32>::empty());
        } else {
            let y = delta(fp, m - 1);
            let ended = progress(fp, m - 1, 32);
            let end = ended.len() as int;
            lemma_decode_progress(fp, n, m - 1, 32);
            lemma_progress(fp, n, m - 1, 32);
            assert(p =~= ended.push(0));
            lemma_exceptional_push(ended, 0);
            assert(normal[end] == 0);
            assert(decode(normal, exceptional, end + 1) == decode_step(
                decode(normal, exceptional, end),
                normal[end],
                exceptional,
            ));
            let items = fp.take(m - 1);
            if m - 1 > 0 {
                assert(items.last() == fp[m - 2]);
                lemma_xor_back(fp[m - 1], fp[m - 2]);
            }
            assert(next_item(items, y) == fp[m - 1]);
            assert(items.push(fp[m - 1]) =~= fp.take(m));
        }
    } else {
        let before = progress(fp, m, b - 1);
        let at = before.len() as int;
        lemma_decode_progress(fp, n, m, b - 1);
        lemma_low_bits_step(x, (b - 1) as u32);
        lemma_last_set_range(x, b - 1);
        if word_bit(x, b - 1) {
            let g = (b - last_set(x, b - 1)) as u8;
            lemma_progress(fp, n, m, b - 1);
            assert(s[at] == g);
            assert(s.take(at) == before);
            assert(p =~= before.push(g));
            lemma_exceptional_push(before, g);
            lemma_exceptional_prefix(s, at);
            assert(normal[at] == normal_value(g));
            assert(decode(normal, exceptional, at + 1) == decode_step(
                decode(normal, exceptional, at),
                normal[at],
                exceptional,
            ));
        } else {
            assert(p =~= before);
        }
    }
}

/// Scanning the normal values of a fingerprint of `n` items for `n` zeros
/// ends behind the last of them.
proof fn lemma_scan(fp: Seq<u32>, n: int, body: Seq<u8>, m: int, b: int)
    requires
        0 <= m < n <= fp.len(),
        0 <= b <= 32,
        3 * symbols(fp, n).len() <= 8 * body.len(),
        forall|k: int|
            0 <= k < symbols(fp, n).len() ==> packed_value(body, NORMAL_BITS as int, k)
                == #[trigger] normal_of(symbols(fp, n))[k],
    ensures
        scan_normal(body, progress(fp, m, b).len() as int, n - m) == Some(
            symbols(fp, n).len() as int,
        ),
    decreases n - m, 32 - b,
{
    let s = symbols(fp, n);
    let x = delta(fp, m);
    let p = progress(fp, m, b);
    let k = p.len() as int;
    let zeros = n - m;
    lemma_progress(fp, n, m, b);
    let value = packed_value(body, NORMAL_BITS as int, k);
    assert(value == normal_of(s)[k]);
    assert(normal_of(s)[k] == normal_value(s[k]));
    assert(0 <= k && 3 * (k + 1) <= 8 * body.len());
    assert(zeros >= 1);
    if b < 32 {
        if word_bit(x, b) {
            lemma_last_set_range(x, b);
            let gap = (b + 1 - last_set(x, b)) as u8;
            assert(s[k] == gap);
            assert(progress(fp, m, b + 1) =~= p.push(gap));
            assert(progress(fp, m, b + 1).len() == k + 1);
            assert(value != 0);
            assert(scan_normal(body, k, zeros) == scan_normal(body, k + 1, zeros));
            lemma_scan(fp, n, body, m, b + 1);
        } else {
            assert(progress(fp, m, b + 1) =~= p);
            lemma_scan(fp, n, body, m, b + 1);
        }
    } else {
        assert(s[k] == 0);
        assert(value == 0);
        assert(scan_normal(body, k, zeros) == scan_normal(body, k + 1, zeros - 1));
        assert(progress(fp, m + 1, 0) =~= p.push(0));
        assert(progress(fp, m + 1, 0).len() == k + 1);
        if m + 1 < n {
            lemma_scan(fp, n, body, m + 1, 0);
        } else {
            assert(s =~= p.push(0));
            assert(s.len() == k + 1);
            assert(scan_normal(body, k + 1, 0) == Some(k + 1));
        }
    }
}

/// What follows the first of two joined sequences is the second.
proof fn lemma_skip_concat(a: Seq<u8>, b: Seq<u8>)
    ensures
        (a + b).skip(a.len() as int) == b,
{
    assert((a + b).skip(a.len() as int) =~= b);
}

/// The header of a compressed fingerprint gives the algorithm and the
/// number of items, and the two streams follow it.
proof fn lemma_roundtrip_header(algorithm: u8, fp: Seq<u32>)
    requires
        fp.len() < 0x100_0000,
    ensures
        compressed(algorithm, fp).len() >= HEADER_SIZE,
        compressed(algorithm, fp)[0] == algorithm,
        header_size(compressed(algorithm, fp)) == fp.len(),
        compressed(algorithm, fp).skip(HEADER_SIZE as int) == packed(
            normal_of(symbols(fp, fp.len() as int)),
            NORMAL_BITS as int,
        ) + packed(exceptional_of(symbols(fp, fp.len() as int)), EXCEPTIONAL_BITS as int),
{
    let n = fp.len() as int;
    let s = symbols(fp, n);
    let h = header(algorithm, n);
    let normal_bytes = packed(normal_of(s), NORMAL_BITS as int);
    let exceptional_bytes = packed(exceptional_of(s), EXCEPTIONAL_BITS as int);
    let bytes = compressed(algorithm, fp);
    assert(bytes == h + normal_bytes + exceptional_bytes);
    assert(bytes[0] == h[0] && bytes[1] == h[1] && bytes[2] == h[2] && bytes[3] == h[3]);
    assert(bytes.skip(HEADER_SIZE as int) =~= normal_bytes + exceptional_bytes);
}

/// The normal values of a compressed fingerprint are found and read back.
proof fn lemma_roundtrip_normal(fp: Seq<u32>, rest: Seq<u8>)
    ensures
        ({
            let n = fp.len() as int;
            let s = symbols(fp, n);
            let body = packed(normal_of(s), NORMAL_BITS as int) + rest;
            &&& scan_normal(body, 0, n) == Some(s.len() as int)
            &&& Seq::new(s.len(), |k: int| packed_value(body, NORMAL_BITS as int, k)) == normal_of(
                s,
            )
            &&& body.skip(packed_len(s.len() as int, NORMAL_BITS as int)) == rest
        }),
{
    let n = fp.len() as int;
    let s = symbols(fp, n);
    let normal = normal_of(s);
    let normal_bytes = packed(normal, NORMAL_BITS as int);
    let body = normal_bytes + rest;
    lemma_symbol_values(fp, n);
    assert forall|k: int| 0 <= k < s.len() implies packed_value(body, NORMAL_BITS as int, k)
        == #[trigger] normal[k] by {
        lemma_fits_three(normal[k]);
        lemma_read_back(normal, NORMAL_BITS as int, rest, k);
    }
    if n > 0 {
        assert(progress(fp, 0, 0) =~= Seq::<u8>::empty());
        lemma_scan(fp, n, body, 0, 0);
    } else {
        assert(s =~= Seq::<u8>::empty());
    }
    assert(Seq::new(s.len(), |k: int| packed_value(body, NORMAL_BITS as int, k)) =~= normal);
    lemma_skip_concat(normal_bytes, rest);
}

/// The exceptional values of a compressed fingerprint are read back.
proof fn lemma_roundtrip_exceptional(fp: Seq<u32>)
    ensures
        ({
            let s = symbols(fp, fp.len() as int);
            let tail = packed(exceptional_of(s), EXCEPTIONAL_BITS as int);
            let needed = sevens(normal_of(s), s.len() as int);
            &&& needed == exceptional_of(s).len()
            &&& EXCEPTIONAL_BITS * needed <= 8 * tail.len()
            &&& Seq::new(needed as nat, |i: int| packed_value(tail, EXCEPTIONAL_BITS as int, i))
                == exceptional_of(s)
        }),
{
    let n = fp.len() as int;
    let s = symbols(fp, n);
    let exceptional = exceptional_of(s);
    let exceptional_bytes = packed(exceptional, EXCEPTIONAL_BITS as int);
    lemma_sevens(s, s.len() as int);
    assert(s.take(s.len() as int) =~= s);
    lemma_symbol_values(fp, n);
    lemma_exceptional_values(s);
    assert forall|i: int| 0 <= i < exceptional.len() implies packed_value(
        exceptional_bytes,
        EXCEPTIONAL_BITS as int,
        i,
    ) == #[trigger] exceptional[i] by {
        lemma_fits_five(exceptional[i]);
        lemma_read_back(exceptional, EXCEPTIONAL_BITS as int, Seq::empty(), i);
        assert(exceptional_bytes + Seq::<u8>::empty() =~= exceptional_bytes);
    }
    assert(Seq::new(
        exceptional.len(),
        |i: int| packed_value(exceptional_bytes, EXCEPTIONAL_BITS as int, i),
    ) =~= exceptional);
}

/// Decoding the values of a fingerprint gives its items.
proof fn lemma_roundtrip_decode(fp: Seq<u32>)
    ensures
        ({
            let s = symbols(fp, fp.len() as int);
            let state = decode(normal_of(s), exceptional_of(s), s.len() as int);
            !state.4 && state.3 == fp
        }),
{
    let n = fp.len() as int;
    lemma_decode_progress(fp, n, n, 0);
    assert(progress(fp, n, 0) =~= symbols(fp, n));
    assert(fp.take(n) =~= fp);
}

/// Compression can be undone: reading the compressed form of a fingerprint
/// of fewer than 2^24 items gives the algorithm and the fingerprint back.
pub proof fn lemma_compress_roundtrip(algorithm: u8, fp: Seq<u32>)
    requires
        fp.len() < 0x100_0000,
    ensures
        decompressed(compressed(algorithm, fp)) == Some((algorithm, fp)),
{
    let s = symbols(fp, fp.len() as int);
    let exceptional_bytes = packed(exceptional_of(s), EXCEPTIONAL_BITS as int);
    lemma_roundtrip_header(algorithm, fp);
    lemma_roundtrip_normal(fp, exceptional_bytes);
    lemma_roundtrip_exceptional(fp);
    lemma_roundtrip_decode(fp);
}

/// No exceptional value is above 25.
proof fn lemma_exceptional_values(syms: Seq<u8>)
    requires
        forall|i: int| 0 <= i < syms.len() ==> #[trigger] syms[i] <= 32,
    ensures
        forall|i: int|
            0 <= i < exceptional_of(syms).len() ==> #[trigger] exceptional_of(syms)[i] <= 25,
    decreases syms.len(),
{
    if syms.len() > 0 {
        let before = syms.drop_last();
        assert forall|i: int| 0 <= i < before.len() implies #[trigger] before[i] <= 32 by {
            assert(before[i] == syms[i]);
        }
        lemma_exceptional_values(before);
        let exc_before = exceptional_of(before);
        assert forall|i: int| 0 <= i < exceptional_of(syms).len() implies #[trigger] exceptional_of(
            syms,
        )[i] <= 25 by {
            if i < exc_before.len() {
                assert(exceptional_of(syms)[i] == exc_before[i]);
            }
        }
    }
}

} // verus!
