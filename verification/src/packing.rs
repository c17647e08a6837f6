//! Packing small integers into bytes, bit by bit.
//!
//! An array of `N`-bit values (`N` from 1 to 8) is laid out as one stream of
//! bits, the lowest bit of the first value first. Bit `g` of the stream is bit
//! `g % 8` of byte `g / 8`, so value `i` begins at bit `i * N % 8` of byte
//! `i * N / 8`. The last byte is filled up with zero bits.

use vstd::prelude::*;

verus! {

/// Bit `k` of `x`, counted from the lowest.
pub open spec fn bit(x: u8, k: u8) -> bool {
    k < 8 && (x >> k) & 1 == 1
}

/// Bit `g` of the stream of the low `n` bits of each of `values`.
pub open spec fn stream_bit(values: Seq<u8>, n: int, g: int) -> bool {
    0 <= g < values.len() * n && bit(values[g / n], (g % n) as u8)
}

/// Bit `g` of a sequence of bytes.
pub open spec fn byte_bit(bytes: Seq<u8>, g: int) -> bool {
    0 <= g < 8 * bytes.len() && bit(bytes[g / 8], (g % 8) as u8)
}

/// The byte whose bit `k` is `bits(k)`.
pub open spec fn byte_of(bits: spec_fn(int) -> bool) -> u8 {
    ((if bits(0) {
        1int
    } else {
        0int
    }) + (if bits(1) {
        2int
    } else {
        0int
    }) + (if bits(2) {
        4int
    } else {
        0int
    }) + (if bits(3) {
        8int
    } else {
        0int
    }) + (if bits(4) {
        16int
    } else {
        0int
    }) + (if bits(5) {
        32int
    } else {
        0int
    }) + (if bits(6) {
        64int
    } else {
        0int
    }) + (if bits(7) {
        128int
    } else {
        0int
    })) as u8
}

/// Number of bytes that `array_len` values of `n` bits take.
pub open spec fn packed_len(array_len: int, n: int) -> int {
    (array_len * n + 7) / 8
}

/// The bytes that hold the low `n` bits of each of `values`, packed.
pub open spec fn packed(values: Seq<u8>, n: int) -> Seq<u8> {
    Seq::new(
        packed_len(values.len() as int, n) as nat,
        |j: int| byte_of(|k: int| stream_bit(values, n, 8 * j + k)),
    )
}

/// Number of whole `n`-bit values in `byte_len` bytes.
pub open spec fn unpacked_len(byte_len: int, n: int) -> int {
    8 * byte_len / n
}

/// The `n`-bit values that `bytes` hold, as many as are whole.
pub open spec fn unpacked(bytes: Seq<u8>, n: int) -> Seq<u8> {
    Seq::new(
        unpacked_len(bytes.len() as int, n) as nat,
        |i: int| byte_of(|t: int| t < n && byte_bit(bytes, i * n + t)),
    )
}

/// The bits of a sum of distinct powers of two are the powers that are part of
/// it.
proof fn lemma_bits_of_sum(
    b0: bool,
    b1: bool,
    b2: bool,
    b3: bool,
    b4: bool,
    b5: bool,
    b6: bool,
    b7: bool,
    x: u8,
)
    by (bit_vector)
    requires
        x == (if b0 {
            1u8
        } else {
            0u8
        }) + (if b1 {
            2u8
        } else {
            0u8
        }) + (if b2 {
            4u8
        } else {
            0u8
        }) + (if b3 {
            8u8
        } else {
            0u8
        }) + (if b4 {
            16u8
        } else {
            0u8
        }) + (if b5 {
            32u8
        } else {
            0u8
        }) + (if b6 {
            64u8
        } else {
            0u8
        }) + (if b7 {
            128u8
        } else {
            0u8
        }),
    ensures
        ((x >> 0u8) & 1 == 1) == b0,
        ((x >> 1u8) & 1 == 1) == b1,
        ((x >> 2u8) & 1 == 1) == b2,
        ((x >> 3u8) & 1 == 1) == b3,
        ((x >> 4u8) & 1 == 1) == b4,
        ((x >> 5u8) & 1 == 1) == b5,
        ((x >> 6u8) & 1 == 1) == b6,
        ((x >> 7u8) & 1 == 1) == b7,
{
}

/// The bits of `byte_of(bits)` are `bits`.
pub proof fn lemma_byte_of(bits: spec_fn(int) -> bool, k: u8)
    ensures
        bit(byte_of(bits), k) == (k < 8 && bits(k as int)),
{
    let x = byte_of(bits);
    lemma_bits_of_sum(bits(0), bits(1), bits(2), bits(3), bits(4), bits(5), bits(6), bits(7), x);
}

/// Bytes that agree in all eight bits are the same.
proof fn lemma_same_bits(x: u8, y: u8)
    by (bit_vector)
    requires
        (x >> 0u8) & 1 == (y >> 0u8) & 1,
        (x >> 1u8) & 1 == (y >> 1u8) & 1,
        (x >> 2u8) & 1 == (y >> 2u8) & 1,
        (x >> 3u8) & 1 == (y >> 3u8) & 1,
        (x >> 4u8) & 1 == (y >> 4u8) & 1,
        (x >> 5u8) & 1 == (y >> 5u8) & 1,
        (x >> 6u8) & 1 == (y >> 6u8) & 1,
        (x >> 7u8) & 1 == (y >> 7u8) & 1,
    ensures
        x == y,
{
}

/// A bit is zero or one.
proof fn lemma_bit_values(x: u8, k: u8)
    by (bit_vector)
    requires
        k < 8,
    ensures
        (x >> k) & 1 == 0 || (x >> k) & 1 == 1,
{
}

/// Two bytes with the same bits are the same.
pub proof fn lemma_byte_ext(x: u8, y: u8)
    requires
        forall|k: u8| k < 8 ==> bit(x, k) == bit(y, k),
    ensures
        x == y,
{
    assert(bit(x, 0) == bit(y, 0));
    assert(bit(x, 1) == bit(y, 1));
    assert(bit(x, 2) == bit(y, 2));
    assert(bit(x, 3) == bit(y, 3));
    assert(bit(x, 4) == bit(y, 4));
    assert(bit(x, 5) == bit(y, 5));
    assert(bit(x, 6) == bit(y, 6));
    assert(bit(x, 7) == bit(y, 7));
    lemma_bit_values(x, 0);
    lemma_bit_values(x, 1);
    lemma_bit_values(x, 2);
    lemma_bit_values(x, 3);
    lemma_bit_values(x, 4);
    lemma_bit_values(x, 5);
    lemma_bit_values(x, 6);
    lemma_bit_values(x, 7);
    lemma_bit_values(y, 0);
    lemma_bit_values(y, 1);
    lemma_bit_values(y, 2);
    lemma_bit_values(y, 3);
    lemma_bit_values(y, 4);
    lemma_bit_values(y, 5);
    lemma_bit_values(y, 6);
    lemma_bit_values(y, 7);
    lemma_same_bits(x, y);
}

/// Bit `g` of the packed bytes is bit `g` of the stream of values.
pub proof fn lemma_packed_bit(values: Seq<u8>, n: int, g: int)
    requires
        1 <= n <= 8,
    ensures
        byte_bit(packed(values, n), g) == stream_bit(values, n, g),
{
    let p = packed(values, n);
    if 0 <= g < 8 * p.len() {
        let j = g / 8;
        let k = (g % 8) as u8;
        lemma_byte_of(|k: int| stream_bit(values, n, 8 * j + k), k);
    }
}

/// A bit of `x | y` is set where it is set in `x` or in `y`.
proof fn lemma_or_bit(x: u8, y: u8, b: u8)
    by (bit_vector)
    ensures
        bit(x | y, b) == (bit(x, b) || bit(y, b)),
{
}

/// Bit `b` of `v << r` is bit `b - r` of `v`.
proof fn lemma_shl_bit(v: u8, r: u8, b: u8)
    by (bit_vector)
    requires
        r < 8,
        b < 8,
    ensures
        bit(v << r, b) == (b >= r && bit(v, (b - r) as u8)),
{
}

/// Bit `b` of `v >> s` is bit `b + s` of `v`.
proof fn lemma_shr_bit(v: u8, s: u8, b: u8)
    by (bit_vector)
    requires
        s < 8,
        b < 8,
    ensures
        bit(v >> s, b) == (b + s < 8 && bit(v, (b + s) as u8)),
{
}

/// The mask of `n` bits keeps the lowest `n` bits.
proof fn lemma_mask_bit(v: u8, n: u8, t: u8)
    by (bit_vector)
    requires
        1 <= n <= 8,
        t < 8,
    ensures
        bit(v & ((0xffu8 << ((8 - n) as u8)) >> ((8 - n) as u8)), t) == (t < n && bit(v, t)),
{
}

/// Where a bit of the stream stands: in value `g / n`, as its bit `g % n`.
proof fn lemma_position(i: int, n: int, t: int)
    requires
        n >= 1,
        0 <= t < n,
    ensures
        (i * n + t) / n == i,
        (i * n + t) % n == t,
{
    vstd::arithmetic::div_mod::lemma_fundamental_div_mod_converse(i * n + t, n, i, t);
}

/// What holds of the bytes written so far when the first `i` values are
/// packed: their bits stand, all other bits are zero.
spec fn packed_upto(values: Seq<u8>, n: int, i: int, out: Seq<u8>) -> bool {
    &&& out.len() == packed_len(values.len() as int, n)
    &&& forall|g: int|
        0 <= g < 8 * out.len() ==> #[trigger] byte_bit(out, g) == (g < i * n && stream_bit(
            values,
            n,
            g,
        ))
}

/// Putting the bits of value `i` into the one or two bytes where they belong
/// packs one more value.
proof fn lemma_pack_step(values: Seq<u8>, n: int, i: int, old: Seq<u8>, new: Seq<u8>, bits: u8)
    requires
        1 <= n <= 8,
        0 <= i < values.len(),
        packed_upto(values, n, i, old),
        forall|t: u8| t < 8 ==> bit(bits, t) == (t < n && bit(values[i], t)),
        new.len() == old.len(),
        ({
            let pos = i * n;
            let right = pos / 8;
            let left = (pos + n - 1) / 8;
            let r = (pos % 8) as u8;
            &&& forall|j: int| 0 <= j < old.len() && j != right && j != left ==> new[j] == old[j]
            &&& new[right] == old[right] | (bits << r)
            &&& left != right ==> new[left] == old[left] | (bits >> ((8 - r) as u8))
        }),
    ensures
        packed_upto(values, n, i + 1, new),
{
    let pos = i * n;
    let right = pos / 8;
    let left = (pos + n - 1) / 8;
    let r = (pos % 8) as u8;
    assert((i + 1) * n == pos + n) by (nonlinear_arith)
        requires
            pos == i * n,
    ;
    assert(pos + n <= values.len() * n) by (nonlinear_arith)
        requires
            pos == i * n,
            i + 1 <= values.len(),
            n >= 1,
    ;
    assert forall|g: int| 0 <= g < 8 * new.len() implies #[trigger] byte_bit(new, g) == (g < (i
        + 1) * n && stream_bit(values, n, g)) by {
        let j = g / 8;
        let b = (g % 8) as u8;
        assert(byte_bit(old, g) == (g < pos && stream_bit(values, n, g)));
        if j == right {
            lemma_or_bit(old[right], bits << r, b);
            lemma_shl_bit(bits, r, b);
            if b >= r {
                let t = (b - r) as u8;
                assert(g == pos + t);
                if t < n {
                    lemma_position(i, n, t as int);
                }
            }
        } else if j == left {
            let s = (8 - r) as u8;
            lemma_or_bit(old[left], bits >> s, b);
            lemma_shr_bit(bits, s, b);
            if b + s < 8 {
                let t = (b + s) as u8;
                assert(g == pos + t);
                if t < n {
                    lemma_position(i, n, t as int);
                }
            }
        } else {
            assert(new[j] == old[j]);
        }
    }
}

/// Calculates the number of bytes that `array_len` values of `n` bits take
/// when packed.
pub fn packed_intn_array_len(array_len: usize, n: usize) -> (len: usize)
    requires
        array_len * n + 7 <= usize::MAX,
    ensures
        len == packed_len(array_len as int, n as int),
{
    (array_len * n + 7) / 8
}

/// Packs the low `N` bits of each byte of `array` into as few bytes as hold
/// them.
pub fn iter_packed_intn_array<const N: usize>(array: &[u8]) -> (out: Vec<u8>)
    requires
        1 <= N <= 8,
        array@.len() * N + 7 <= usize::MAX,
    ensures
        out@ == packed(array@, N as int),
{
    let mask: u8 = (0xffu8 << ((8 - N) as u8)) >> ((8 - N) as u8);
    let size: usize = packed_intn_array_len(array.len(), N);
    let mut out: Vec<u8> = Vec::with_capacity(size);
    let mut k: usize = 0;
    while k < size
        invariant
            k <= size,
            out@.len() == k,
            forall|j: int| 0 <= j < k ==> out@[j] == 0,
        decreases size - k,
    {
        out.push(0);
        k += 1;
    }
    proof {
        assert forall|g: int| 0 <= g < 8 * out@.len() implies #[trigger] byte_bit(out@, g) == (g
            < 0 * N && stream_bit(array@, N as int, g)) by {
            assert(!bit(0u8, (g % 8) as u8)) by {
                assert(forall|b: u8| !bit(0u8, b)) by (bit_vector);
            }
        }
    }
    let mut i: usize = 0;
    let mut pos: usize = 0;
    while i < array.len()
        invariant
            1 <= N <= 8,
            array@.len() * N + 7 <= usize::MAX,
            size == packed_len(array@.len() as int, N as int),
            i <= array@.len(),
            pos == i * N,
            mask == (0xffu8 << ((8 - N) as u8)) >> ((8 - N) as u8),
            packed_upto(array@, N as int, i as int, out@),
        decreases array@.len() - i,
    {
        proof {
            assert(pos + N <= array@.len() * N) by (nonlinear_arith)
                requires
                    pos == i * N,
                    i + 1 <= array@.len(),
                    N >= 1,
            ;
        }
        let bits: u8 = array[i] & mask;
        let right_byte: usize = pos / 8;
        let left_byte: usize = (pos + N - 1) / 8;
        let shift: u8 = (pos % 8) as u8;
        let ghost before = out@;
        let low: u8 = out[right_byte] | (bits << shift);
        out.set(right_byte, low);
        if left_byte != right_byte {
            let high: u8 = out[left_byte] | (bits >> ((8 - shift) % 8));
            out.set(left_byte, high);
        }
        proof {
            assert forall|t: u8| t < 8 implies bit(bits, t) == (t < N && bit(array@[i as int], t)) by {
                lemma_mask_bit(array@[i as int], N as u8, t);
            }
            lemma_pack_step(array@, N as int, i as int, before, out@, bits);
            assert((i + 1) * N == pos + N) by (nonlinear_arith)
                requires
                    pos == i * N,
            ;
        }
        i += 1;
        pos += N;
    }
    proof {
        let p = packed(array@, N as int);
        assert forall|j: int| 0 <= j < out@.len() implies out@[j] == p[j] by {
            assert forall|b: u8| b < 8 implies bit(out@[j], b) == bit(p[j], b) by {
                let g = 8 * j + b;
                assert(g / 8 == j && g % 8 == b);
                lemma_packed_bit(array@, N as int, g);
                assert(byte_bit(out@, g) == bit(out@[j], b));
                assert(byte_bit(p, g) == bit(p[j], b));
            }
            lemma_byte_ext(out@[j], p[j]);
        }
        assert(out@ =~= p);
    }
    out
}

/// Value `i` of the `n`-bit values that `bytes` hold: the `n` bits of the
/// stream from bit `i * n` on.
pub open spec fn packed_value(bytes: Seq<u8>, n: int, i: int) -> u8 {
    byte_of(|t: int| t < n && byte_bit(bytes, i * n + t))
}

/// Reads value `i` of the `N`-bit values that `bytes` hold.
pub fn read_packed<const N: usize>(bytes: &[u8], i: usize) -> (value: u8)
    requires
        1 <= N <= 8,
        (i + 1) * N <= 8 * bytes@.len() <= usize::MAX,
    ensures
        value == packed_value(bytes@, N as int, i as int),
{
    proof {
        assert(i * N + N == (i + 1) * N) by (nonlinear_arith);
        assert(0 <= i * N) by (nonlinear_arith)
            requires
                i >= 0,
                N >= 1,
        ;
    }
    let len: usize = bytes.len();
    let mask: u8 = (0xffu8 << ((8 - N) as u8)) >> ((8 - N) as u8);
    let pos: usize = i * N;
    let first: usize = pos / 8;
    let shift: u8 = (pos % 8) as u8;
    let low: u8 = bytes[first] >> shift;
    let high: u8 = if shift > 0 && first + 1 < len {
        bytes[first + 1] << (8 - shift)
    } else {
        0
    };
    let value: u8 = (low | high) & mask;
    proof {
        let f = |t: int| t < N && byte_bit(bytes@, i * N + t);
        let expected = packed_value(bytes@, N as int, i as int);
        assert forall|t: u8| t < 8 implies bit(value, t) == bit(expected, t) by {
            lemma_byte_of(f, t);
            lemma_mask_bit(low | high, N as u8, t);
            lemma_or_bit(low, high, t);
            lemma_shr_bit(bytes@[first as int], shift, t);
            let g = pos + t;
            if shift > 0 && first + 1 < len {
                lemma_shl_bit(bytes@[first + 1], (8 - shift) as u8, t);
            } else {
                assert(!bit(0u8, t)) by {
                    assert(forall|b: u8| !bit(0u8, b)) by (bit_vector);
                }
            }
            if t < N {
                if t + shift < 8 {
                    assert(g / 8 == first as int && g % 8 == t + shift);
                } else {
                    assert(g / 8 == first + 1 && g % 8 == t + shift - 8);
                }
            }
        }
        lemma_byte_ext(value, expected);
    }
    value
}

/// Unpacks the `N`-bit values that `bytes` hold, as many as are whole.
pub fn unpack_intn_array<const N: usize>(bytes: &[u8]) -> (values: Vec<u8>)
    requires
        1 <= N <= 8,
        8 * bytes@.len() <= usize::MAX,
    ensures
        values@ == unpacked(bytes@, N as int),
{
    let count: usize = 8 * bytes.len() / N;
    let mut values: Vec<u8> = Vec::with_capacity(count);
    let mut i: usize = 0;
    while i < count
        invariant
            1 <= N <= 8,
            8 * bytes@.len() <= usize::MAX,
            count == unpacked_len(bytes@.len() as int, N as int),
            i <= count,
            values@.len() == i,
            forall|k: int| 0 <= k < i ==> values@[k] == packed_value(bytes@, N as int, k),
        decreases count - i,
    {
        proof {
            assert((i + 1) * N <= 8 * bytes@.len()) by (nonlinear_arith)
                requires
                    i + 1 <= count,
                    count == (8 * (bytes@.len() as int)) / (N as int),
                    N >= 1,
            {
                assert(count * N <= 8 * bytes@.len());
                assert((i + 1) * N <= count * N);
            }
        }
        values.push(read_packed::<N>(bytes, i));
        i += 1;
    }
    assert(values@ =~= unpacked(bytes@, N as int));
    values
}

/// A value that fits in `n` bits has no bit set from bit `n` on.
pub open spec fn fits(value: u8, n: int) -> bool {
    forall|t: u8| n <= t < 8 ==> !bit(value, t)
}

/// Unpacking the packed bytes gives the low `n` bits of each value, followed
/// by the zeros that filled up the last byte.
pub proof fn lemma_unpack_packed(values: Seq<u8>, n: int, i: int)
    requires
        1 <= n <= 8,
        0 <= i < unpacked(packed(values, n), n).len(),
    ensures
        values.len() <= unpacked(packed(values, n), n).len(),
        i < values.len() ==> forall|t: u8|
            t < 8 ==> bit(unpacked(packed(values, n), n)[i], t) == (t < n && bit(values[i], t)),
        i >= values.len() ==> unpacked(packed(values, n), n)[i] == 0,
{
    let p = packed(values, n);
    let u = unpacked(p, n);
    assert(values.len() <= u.len()) by (nonlinear_arith)
        requires
            u.len() == (8 * (p.len() as int)) / (n as int),
            p.len() == ((values.len() as int) * n + 7) / 8,
            1 <= n <= 8,
    {
        assert(8 * p.len() >= values.len() * n);
        assert((values.len() * n) / n == values.len());
    }
    let f = |t: int| t < n && byte_bit(p, i * n + t);
    assert forall|t: u8| t < 8 implies bit(u[i], t) == (t < n && i < values.len() && bit(
        values[i],
        t,
    )) by {
        lemma_byte_of(f, t);
        if t < n {
            lemma_packed_bit(values, n, i * n + t);
            lemma_position(i, n, t as int);
            if i < values.len() {
                assert(i * n + t < values.len() * n) by (nonlinear_arith)
                    requires
                        i + 1 <= values.len(),
                        0 <= t < n,
                ;
            } else {
                assert(i * n + t >= values.len() * n) by (nonlinear_arith)
                    requires
                        i >= values.len(),
                        0 <= t,
                        n >= 1,
                ;
            }
        }
    }
    if i >= values.len() {
        assert forall|t: u8| t < 8 implies bit(u[i], t) == bit(0u8, t) by {
            assert(!bit(0u8, t)) by {
                assert(forall|b: u8| !bit(0u8, b)) by (bit_vector);
            }
        }
        lemma_byte_ext(u[i], 0u8);
    }
}

/// What was packed comes out again: unpacking the packed bytes of values
/// that fit in `n` bits gives the values, followed by the zeros that filled
/// up the last byte, which are fewer than eight bits.
pub proof fn lemma_packing_roundtrip(values: Seq<u8>, n: int)
    requires
        1 <= n <= 8,
        forall|i: int| 0 <= i < values.len() ==> fits(#[trigger] values[i], n),
    ensures
        values.len() <= unpacked(packed(values, n), n).len(),
        (unpacked(packed(values, n), n).len() - values.len()) * n < 8,
        unpacked(packed(values, n), n).take(values.len() as int) == values,
        forall|i: int|
            values.len() <= i < unpacked(packed(values, n), n).len() ==> #[trigger] unpacked(
                packed(values, n),
                n,
            )[i] == 0,
{
    let p = packed(values, n);
    let u = unpacked(p, n);
    assert(values.len() <= u.len() && (u.len() - values.len()) * n < 8) by (nonlinear_arith)
        requires
            u.len() == (8 * (p.len() as int)) / n,
            p.len() == ((values.len() as int) * n + 7) / 8,
            1 <= n <= 8,
    {
        let bits = (values.len() as int) * n;
        assert(8 * p.len() >= bits && 8 * p.len() < bits + 8);
        assert(bits / n == values.len());
        assert(u.len() * n <= 8 * p.len());
        assert(u.len() * n > 8 * p.len() - n);
    }
    assert forall|i: int| 0 <= i < u.len() implies (i < values.len() ==> u[i] == values[i]) && (i
        >= values.len() ==> #[trigger] u[i] == 0) by {
        lemma_unpack_packed(values, n, i);
        if i < values.len() {
            assert(fits(values[i], n));
            assert forall|t: u8| t < 8 implies bit(u[i], t) == bit(values[i], t) by {}
            lemma_byte_ext(u[i], values[i]);
        }
    }
    assert(u.take(values.len() as int) =~= values);
}

} // verus!
