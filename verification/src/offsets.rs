//! The sorted offset table of two fingerprints and the alignment histogram
//! that is counted from it.
//!
//! Every item of both fingerprints becomes one 32-bit key: the strip (the top
//! twelve bits of the item) in the top twelve bits, then one bit that tells
//! the second fingerprint from the first, then the item's position in the low
//! nineteen bits. Sorted ascending, the keys of one strip lie side by side,
//! those of the first fingerprint before those of the second.

use vstd::prelude::*;

verus! {

/// Number of leading bits of a sub-fingerprint that form its strip.
pub const ALIGN_BITS: u32 = 12;

/// Position of the strip inside a key.
pub const HASH_SHIFT: u32 = 20;

/// Mask of the position field of a key.
pub const OFFSET_MASK: u32 = 0x7_ffff;

/// The bit of a key that marks an item of the second fingerprint.
pub const SOURCE_MASK: u32 = 0x8_0000;

/// Fingerprints must be shorter than this by more than one item.
pub const OFFSET_LIMIT: usize = 0x8_0000;

/// The strip of a sub-fingerprint: its top twelve bits.
pub open spec fn strip(x: u32) -> int {
    x as int / 0x10_0000
}

/// The strip field of a key.
pub open spec fn key_strip(key: u32) -> int {
    key as int / 0x10_0000
}

/// The source field of a key: 0 for the first fingerprint, 1 for the second.
pub open spec fn key_source(key: u32) -> int {
    (key as int / 0x8_0000) % 2
}

/// The position field of a key.
pub open spec fn key_offset(key: u32) -> int {
    key as int % 0x8_0000
}

/// The key of the item at `offset` of fingerprint number `source` whose strip
/// is `strip`.
pub open spec fn pack_key(strip: int, source: int, offset: int) -> int {
    strip * 0x10_0000 + source * 0x8_0000 + offset
}

/// The unsorted table: the keys of `fp1` in order, then those of `fp2`.
pub open spec fn offset_table(fp1: Seq<u32>, fp2: Seq<u32>) -> Seq<u32> {
    Seq::new(
        fp1.len() + fp2.len(),
        |k: int|
            if k < fp1.len() {
                pack_key(strip(fp1[k]), 0, k) as u32
            } else {
                pack_key(strip(fp2[k - fp1.len()]), 1, k - fp1.len()) as u32
            },
    )
}

/// Whether item `i` of `fp1` meets an item of `fp2` with the same strip on
/// diagonal `d`, that is at position `i + fp2.len() - d` of `fp2`.
pub open spec fn diagonal_hit(fp1: Seq<u32>, fp2: Seq<u32>, d: int, i: int) -> bool {
    let j = i + fp2.len() - d;
    &&& 0 <= i < fp1.len()
    &&& 0 <= j < fp2.len()
    &&& strip(fp1[i]) == strip(fp2[j])
}

/// How many of the first `k` items of `fp1` have a hit on diagonal `d`.
pub open spec fn diagonal_count(fp1: Seq<u32>, fp2: Seq<u32>, d: int, k: int) -> int
    decreases k,
{
    if k <= 0 {
        0
    } else {
        diagonal_count(fp1, fp2, d, k - 1) + if diagonal_hit(fp1, fp2, d, k - 1) {
            1int
        } else {
            0int
        }
    }
}

/// What one key adds to diagonal `d` when the table is walked: one for a key
/// of the first fingerprint whose item has a hit there.
spec fn key_hits(fp1: Seq<u32>, fp2: Seq<u32>, d: int, key: u32) -> int {
    if key_source(key) == 0 && diagonal_hit(fp1, fp2, d, key_offset(key)) {
        1
    } else {
        0
    }
}

/// The hits on diagonal `d` of all keys of `keys` together.
spec fn total_hits(fp1: Seq<u32>, fp2: Seq<u32>, d: int, keys: Seq<u32>) -> int
    decreases keys.len(),
{
    if keys.len() == 0 {
        0
    } else {
        total_hits(fp1, fp2, d, keys.drop_last()) + key_hits(fp1, fp2, d, keys.last())
    }
}

/// Whether `key` is the key of an item of one of the two fingerprints.
spec fn valid_key(fp1: Seq<u32>, fp2: Seq<u32>, key: u32) -> bool {
    let o = key_offset(key);
    if key_source(key) == 0 {
        0 <= o < fp1.len() && key_strip(key) == strip(fp1[o])
    } else {
        0 <= o < fp2.len() && key_strip(key) == strip(fp2[o])
    }
}

/// Whether `key` is a key of the second fingerprint that lies on diagonal `d`
/// of item `i` of the first.
spec fn partner_on(n2: int, d: int, i: int, key: u32) -> bool {
    key_source(key) == 1 && i + n2 - key_offset(key) == d
}

/// How many of the keys at positions `lo..hi` are partners of item `i` on
/// diagonal `d`.
spec fn partners_between(keys: Seq<u32>, n2: int, d: int, i: int, lo: int, hi: int) -> int
    decreases hi - lo,
{
    if hi <= lo {
        0
    } else {
        partners_between(keys, n2, d, i, lo, hi - 1) + if partner_on(n2, d, i, keys[hi - 1]) {
            1int
        } else {
            0int
        }
    }
}

/// Ascending order.
spec fn ascending(keys: Seq<u32>) -> bool {
    forall|i: int, j: int| 0 <= i <= j < keys.len() ==> keys[i] <= keys[j]
}

/// A key put together by shifts is the key put together by arithmetic.
proof fn lemma_key_fields(s: u32, o: u32)
    by (bit_vector)
    requires
        s < 4096,
        o < 0x8_0000,
    ensures
        (s << 20) | o == s * 0x10_0000 + o,
        (s << 20) | o | 0x8_0000 == s * 0x10_0000 + 0x8_0000 + o,
        s * 0x10_0000 + 0x8_0000 + o <= 0xffff_ffff,
{
}

/// The fields of a key, taken by shifts and masks, are the fields taken by
/// arithmetic.
proof fn lemma_key_decode(x: u32)
    by (bit_vector)
    ensures
        x >> 20 == x / 0x10_0000,
        x >> 20 < 4096,
        x & 0x7_ffff == x % 0x8_0000,
        (x & 0x8_0000 != 0) <==> (x / 0x8_0000) % 2 == 1,
{
}

/// The unsorted offset table of two fingerprints.
fn build_offset_table(fp1: &[u32], fp2: &[u32]) -> (keys: Vec<u32>)
    requires
        fp1@.len() + 1 < OFFSET_LIMIT,
        fp2@.len() + 1 < OFFSET_LIMIT,
    ensures
        keys@ == offset_table(fp1@, fp2@),
{
    let mut keys: Vec<u32> = Vec::with_capacity(fp1.len() + fp2.len());
    let mut i: usize = 0;
    while i < fp1.len()
        invariant
            fp1@.len() + 1 < OFFSET_LIMIT,
            i <= fp1@.len(),
            keys@.len() == i,
            forall|k: int| 0 <= k < i ==> keys@[k] == offset_table(fp1@, fp2@)[k],
        decreases fp1@.len() - i,
    {
        let s: u32 = fp1[i] >> HASH_SHIFT;
        let key: u32 = (s << HASH_SHIFT) | (i as u32);
        proof {
            lemma_key_decode(fp1@[i as int]);
            lemma_key_fields(s, i as u32);
        }
        keys.push(key);
        i += 1;
    }
    let mut j: usize = 0;
    while j < fp2.len()
        invariant
            fp1@.len() + 1 < OFFSET_LIMIT,
            fp2@.len() + 1 < OFFSET_LIMIT,
            j <= fp2@.len(),
            keys@.len() == fp1@.len() + j,
            forall|k: int| 0 <= k < fp1@.len() + j ==> keys@[k] == offset_table(fp1@, fp2@)[k],
        decreases fp2@.len() - j,
    {
        let s: u32 = fp2[j] >> HASH_SHIFT;
        let key: u32 = (s << HASH_SHIFT) | (j as u32) | SOURCE_MASK;
        proof {
            lemma_key_decode(fp2@[j as int]);
            lemma_key_fields(s, j as u32);
        }
        keys.push(key);
        j += 1;
    }
    assert(keys@ =~= offset_table(fp1@, fp2@));
    keys
}

/// `sort_unstable` of std's slices on a vector of keys: afterwards the vector
/// holds the same keys, each as often as before, in ascending order.
#[verifier::external_body]
fn sort_keys(keys: &mut Vec<u32>)
    ensures
        final(keys)@.to_multiset() == old(keys)@.to_multiset(),
        ascending(final(keys)@),
{
    keys.sort_unstable();
}

/// The fields of a key are what it was put together from.
proof fn lemma_pack_fields(s: int, source: int, o: int)
    requires
        0 <= s < 4096,
        0 <= source <= 1,
        0 <= o < 0x8_0000,
    ensures
        0 <= pack_key(s, source, o) <= 0xffff_ffff,
        key_strip(pack_key(s, source, o) as u32) == s,
        key_source(pack_key(s, source, o) as u32) == source,
        key_offset(pack_key(s, source, o) as u32) == o,
{
}

/// A key is put together from its fields.
proof fn lemma_unpack(key: u32)
    ensures
        0 <= key_strip(key) < 4096,
        0 <= key_source(key) <= 1,
        0 <= key_offset(key) < 0x8_0000,
        key == pack_key(key_strip(key), key_source(key), key_offset(key)),
{
}

/// Key `k` of the table is the key of an item: of item `k` of the first
/// fingerprint, or of item `k - fp1.len()` of the second.
proof fn lemma_table_key(fp1: Seq<u32>, fp2: Seq<u32>, k: int)
    requires
        fp1.len() + 1 < OFFSET_LIMIT,
        fp2.len() + 1 < OFFSET_LIMIT,
        0 <= k < fp1.len() + fp2.len(),
    ensures
        valid_key(fp1, fp2, offset_table(fp1, fp2)[k]),
        k < fp1.len() ==> key_source(offset_table(fp1, fp2)[k]) == 0 && key_offset(
            offset_table(fp1, fp2)[k],
        ) == k,
        k >= fp1.len() ==> key_source(offset_table(fp1, fp2)[k]) == 1 && key_offset(
            offset_table(fp1, fp2)[k],
        ) == k - fp1.len(),
{
    if k < fp1.len() {
        lemma_unpack(fp1[k]);
        lemma_pack_fields(strip(fp1[k]), 0, k);
    } else {
        let j = k - fp1.len();
        lemma_unpack(fp2[j]);
        lemma_pack_fields(strip(fp2[j]), 1, j);
    }
}

/// No key stands twice in the table, and the keys of the table are the keys of
/// the items.
proof fn lemma_table_keys(fp1: Seq<u32>, fp2: Seq<u32>)
    requires
        fp1.len() + 1 < OFFSET_LIMIT,
        fp2.len() + 1 < OFFSET_LIMIT,
    ensures
        offset_table(fp1, fp2).no_duplicates(),
        forall|key: u32| offset_table(fp1, fp2).contains(key) <==> valid_key(fp1, fp2, key),
{
    let t = offset_table(fp1, fp2);
    let n1 = fp1.len() as int;
    assert forall|i: int, j: int| 0 <= i < t.len() && 0 <= j < t.len() && i != j implies t[i]
        != t[j] by {
        lemma_table_key(fp1, fp2, i);
        lemma_table_key(fp1, fp2, j);
    }
    assert forall|key: u32| t.contains(key) implies valid_key(fp1, fp2, key) by {
        let k = choose|k: int| 0 <= k < t.len() && t[k] == key;
        lemma_table_key(fp1, fp2, k);
    }
    assert forall|key: u32| valid_key(fp1, fp2, key) implies t.contains(key) by {
        let o = key_offset(key);
        lemma_unpack(key);
        if key_source(key) == 0 {
            assert(t[o] == key);
        } else {
            assert(t[n1 + o] == key);
        }
    }
}

/// The hits of the first `k` keys of the table are the hits of the items of
/// the first fingerprint among them.
proof fn lemma_table_total(fp1: Seq<u32>, fp2: Seq<u32>, d: int, k: int)
    requires
        fp1.len() + 1 < OFFSET_LIMIT,
        fp2.len() + 1 < OFFSET_LIMIT,
        0 <= k <= fp1.len() + fp2.len(),
    ensures
        total_hits(fp1, fp2, d, offset_table(fp1, fp2).take(k)) == diagonal_count(
            fp1,
            fp2,
            d,
            if k <= fp1.len() {
                k
            } else {
                fp1.len() as int
            },
        ),
    decreases k,
{
    let t = offset_table(fp1, fp2);
    if k > 0 {
        lemma_table_total(fp1, fp2, d, k - 1);
        assert(t.take(k).drop_last() =~= t.take(k - 1));
        assert(t.take(k).last() == t[k - 1]);
        lemma_table_key(fp1, fp2, k - 1);
    }
}

/// The hits of a table are the hits of one key and of the table without it.
proof fn lemma_total_remove(fp1: Seq<u32>, fp2: Seq<u32>, d: int, keys: Seq<u32>, i: int)
    requires
        0 <= i < keys.len(),
    ensures
        total_hits(fp1, fp2, d, keys) == total_hits(fp1, fp2, d, keys.remove(i)) + key_hits(
            fp1,
            fp2,
            d,
            keys[i],
        ),
    decreases keys.len(),
{
    if i == keys.len() - 1 {
        assert(keys.remove(i) =~= keys.drop_last());
    } else {
        lemma_total_remove(fp1, fp2, d, keys.drop_last(), i);
        assert(keys.remove(i).drop_last() =~= keys.drop_last().remove(i));
        assert(keys.remove(i).last() == keys.last());
    }
}

/// The hits of a table do not depend on the order of its keys.
proof fn lemma_total_permuted(fp1: Seq<u32>, fp2: Seq<u32>, d: int, a: Seq<u32>, b: Seq<u32>)
    requires
        a.to_multiset() == b.to_multiset(),
    ensures
        total_hits(fp1, fp2, d, a) == total_hits(fp1, fp2, d, b),
    decreases a.len(),
{
    vstd::seq_lib::to_multiset_len(a);
    vstd::seq_lib::to_multiset_len(b);
    if a.len() > 0 {
        let x = a.last();
        assert(a[a.len() - 1] == x);
        vstd::seq_lib::to_multiset_contains(a, x);
        vstd::seq_lib::to_multiset_contains(b, x);
        let i = choose|i: int| 0 <= i < b.len() && b[i] == x;
        assert(a.remove(a.len() - 1) =~= a.drop_last());
        vstd::seq_lib::to_multiset_remove(a, a.len() - 1);
        vstd::seq_lib::to_multiset_remove(b, i);
        lemma_total_permuted(fp1, fp2, d, a.drop_last(), b.remove(i));
        lemma_total_remove(fp1, fp2, d, b, i);
    }
}

/// A table has no more hits than keys.
proof fn lemma_total_bound(fp1: Seq<u32>, fp2: Seq<u32>, d: int, keys: Seq<u32>)
    ensures
        0 <= total_hits(fp1, fp2, d, keys) <= keys.len(),
    decreases keys.len(),
{
    if keys.len() > 0 {
        lemma_total_bound(fp1, fp2, d, keys.drop_last());
    }
}

/// A range has no more partners than keys.
proof fn lemma_partners_bound(keys: Seq<u32>, n2: int, d: int, i: int, lo: int, hi: int)
    requires
        lo <= hi,
    ensures
        0 <= partners_between(keys, n2, d, i, lo, hi) <= hi - lo,
    decreases hi - lo,
{
    if lo < hi {
        lemma_partners_bound(keys, n2, d, i, lo, hi - 1);
    }
}

/// A range without a partner counts none.
proof fn lemma_partners_none(keys: Seq<u32>, n2: int, d: int, i: int, lo: int, hi: int)
    requires
        0 <= lo <= hi <= keys.len(),
        forall|q: int| lo <= q < hi ==> !partner_on(n2, d, i, #[trigger] keys[q]),
    ensures
        partners_between(keys, n2, d, i, lo, hi) == 0,
    decreases hi - lo,
{
    if lo < hi {
        lemma_partners_none(keys, n2, d, i, lo, hi - 1);
    }
}

/// A range with a single partner counts one.
proof fn lemma_partners_one(keys: Seq<u32>, n2: int, d: int, i: int, lo: int, hi: int, p: int)
    requires
        0 <= lo <= p < hi <= keys.len(),
        partner_on(n2, d, i, keys[p]),
        forall|q: int| lo <= q < hi && q != p ==> !partner_on(n2, d, i, #[trigger] keys[q]),
    ensures
        partners_between(keys, n2, d, i, lo, hi) == 1,
    decreases hi - lo,
{
    if hi - 1 == p {
        lemma_partners_none(keys, n2, d, i, lo, hi - 1);
    } else {
        lemma_partners_one(keys, n2, d, i, lo, hi - 1, p);
    }
}

/// In a sorted table the keys of the second fingerprint that follow a key of
/// the first within its run of equal strips are its partners: on each
/// diagonal there is one of them where the item has a hit, and none else.
proof fn lemma_run_partners(fp1: Seq<u32>, fp2: Seq<u32>, keys: Seq<u32>, d: int, a: int, e: int)
    requires
        fp1.len() + 1 < OFFSET_LIMIT,
        fp2.len() + 1 < OFFSET_LIMIT,
        ascending(keys),
        keys.no_duplicates(),
        forall|key: u32| keys.contains(key) <==> valid_key(fp1, fp2, key),
        0 <= a < e <= keys.len(),
        key_source(keys[a]) == 0,
        forall|q: int| a < q < e ==> key_strip(#[trigger] keys[q]) == key_strip(keys[a]),
        e < keys.len() ==> key_strip(keys[e]) != key_strip(keys[a]),
    ensures
        partners_between(keys, fp2.len() as int, d, key_offset(keys[a]), a + 1, e) == key_hits(
            fp1,
            fp2,
            d,
            keys[a],
        ),
{
    let n2 = fp2.len() as int;
    let i = key_offset(keys[a]);
    let h = key_strip(keys[a]);
    let j = i + n2 - d;
    assert(keys.contains(keys[a]));
    lemma_unpack(keys[a]);
    if diagonal_hit(fp1, fp2, d, i) {
        lemma_pack_fields(h, 1, j);
        let t = pack_key(h, 1, j) as u32;
        assert(valid_key(fp1, fp2, t));
        assert(keys.contains(t));
        let p = choose|p: int| 0 <= p < keys.len() && keys[p] == t;
        assert(keys[a] < t);
        assert(p > a) by {
            if p <= a {
                assert(keys[p] <= keys[a]);
            }
        }
        assert(p < e) by {
            if p >= e {
                assert(keys[a] <= keys[e]);
                assert(keys[e] <= keys[p]);
                lemma_unpack(keys[e]);
            }
        }
        assert forall|q: int| a + 1 <= q < e && q != p implies !partner_on(
            n2,
            d,
            i,
            #[trigger] keys[q],
        ) by {
            if partner_on(n2, d, i, keys[q]) {
                lemma_unpack(keys[q]);
                assert(keys[q] == t);
            }
        }
        lemma_partners_one(keys, n2, d, i, a + 1, e, p);
    } else {
        assert forall|q: int| a + 1 <= q < e implies !partner_on(n2, d, i, #[trigger] keys[q]) by {
            if partner_on(n2, d, i, keys[q]) {
                assert(keys.contains(keys[q]));
                assert(valid_key(fp1, fp2, keys[q]));
            }
        }
        lemma_partners_none(keys, n2, d, i, a + 1, e);
    }
}

/// A vector of `n` zeros.
pub(crate) fn zeros64(n: usize) -> (v: Vec<u64>)
    ensures
        v@.len() == n,
        forall|i: int| 0 <= i < n ==> v@[i] == 0,
{
    let mut v: Vec<u64> = Vec::with_capacity(n);
    let mut i: usize = 0;
    while i < n
        invariant
            i <= n,
            v@.len() == i,
            forall|k: int| 0 <= k < i ==> v@[k] == 0,
        decreases n - i,
    {
        v.push(0);
        i += 1;
    }
    v
}

/// A vector of `n` zeros.
fn zeros(n: usize) -> (v: Vec<u32>)
    ensures
        v@.len() == n,
        forall|i: int| 0 <= i < n ==> v@[i] == 0,
{
    let mut v: Vec<u32> = Vec::with_capacity(n);
    let mut i: usize = 0;
    while i < n
        invariant
            i <= n,
            v@.len() == i,
            forall|k: int| 0 <= k < i ==> v@[k] == 0,
        decreases n - i,
    {
        v.push(0);
        i += 1;
    }
    v
}

/// Counts, for every diagonal, the pairs of items with equal strips that lie
/// on it.
///
/// Diagonal `d` holds the pairs of item `i` of `fp1` and item `j` of `fp2`
/// with `i + fp2.len() - j == d`. The two fingerprints are joined into one
/// sorted table of keys; behind each key of `fp1` its run of equal strips is
/// walked and every key of `fp2` met there counted on its diagonal.
pub fn alignment_histogram(fp1: &[u32], fp2: &[u32]) -> (histogram: Vec<u32>)
    requires
        fp1@.len() + 1 < OFFSET_LIMIT,
        fp2@.len() + 1 < OFFSET_LIMIT,
    ensures
        histogram@.len() == fp1@.len() + fp2@.len(),
        forall|d: int|
            0 <= d < histogram@.len() ==> #[trigger] histogram@[d] == diagonal_count(
                fp1@,
                fp2@,
                d,
                fp1@.len() as int,
            ),
{
    let n2: usize = fp2.len();
    let mut keys = build_offset_table(fp1, fp2);
    let ghost table = keys@;
    sort_keys(&mut keys);
    let size: usize = keys.len();
    proof {
        vstd::seq_lib::to_multiset_len(table);
        vstd::seq_lib::to_multiset_len(keys@);
        lemma_table_keys(fp1@, fp2@);
        table.lemma_multiset_has_no_duplicates();
        keys@.lemma_multiset_has_no_duplicates_conv();
        assert forall|key: u32| keys@.contains(key) <==> valid_key(fp1@, fp2@, key) by {
            vstd::seq_lib::to_multiset_contains(table, key);
            vstd::seq_lib::to_multiset_contains(keys@, key);
        }
    }
    let mut histogram = zeros(size);
    let mut a: usize = 0;
    while a < size
        invariant
            fp1@.len() + 1 < OFFSET_LIMIT,
            fp2@.len() + 1 < OFFSET_LIMIT,
            n2 == fp2@.len(),
            size == fp1@.len() + fp2@.len(),
            keys@.len() == size,
            histogram@.len() == size,
            ascending(keys@),
            keys@.no_duplicates(),
            forall|key: u32| keys@.contains(key) <==> valid_key(fp1@, fp2@, key),
            a <= size,
            forall|d: int| 0 <= d < size ==> #[trigger] histogram@[d] <= a,
            forall|d: int|
                0 <= d < size ==> #[trigger] histogram@[d] == total_hits(
                    fp1@,
                    fp2@,
                    d,
                    keys@.take(a as int),
                ),
        decreases size - a,
    {
        let key1: u32 = keys[a];
        let ghost before = histogram@;
        proof {
            lemma_key_decode(key1);
            assert(keys@.contains(key1));
            assert(keys@.take(a + 1).drop_last() =~= keys@.take(a as int));
            assert(keys@.take(a + 1).last() == key1);
        }
        if key1 & SOURCE_MASK == 0 {
            let hash1: u32 = key1 >> HASH_SHIFT;
            let offset1: usize = (key1 & OFFSET_MASK) as usize;
            let mut b: usize = a + 1;
            while b < size && (keys[b] >> HASH_SHIFT) == hash1
                invariant
                    fp1@.len() + 1 < OFFSET_LIMIT,
                    fp2@.len() + 1 < OFFSET_LIMIT,
                    n2 == fp2@.len(),
                    size == fp1@.len() + fp2@.len(),
                    keys@.len() == size,
                    histogram@.len() == size,
                    forall|key: u32| keys@.contains(key) <==> valid_key(fp1@, fp2@, key),
                    a < b <= size,
                    key1 == keys@[a as int],
                    hash1 == key_strip(key1),
                    offset1 == key_offset(key1),
                    offset1 < fp1@.len(),
                    before.len() == size,
                    forall|d: int| 0 <= d < size ==> 0 <= #[trigger] before[d] <= a,
                    forall|q: int| a < q < b ==> key_strip(#[trigger] keys@[q]) == hash1,
                    forall|d: int|
                        0 <= d < size ==> #[trigger] histogram@[d] == before[d] + partners_between(
                            keys@,
                            n2 as int,
                            d,
                            offset1 as int,
                            a + 1,
                            b as int,
                        ),
                decreases size - b,
            {
                let key2: u32 = keys[b];
                proof {
                    lemma_key_decode(key2);
                    assert(keys@.contains(key2));
                }
                if key2 & SOURCE_MASK != 0 {
                    let offset2: usize = (key2 & OFFSET_MASK) as usize;
                    let diagonal: usize = offset1 + n2 - offset2;
                    proof {
                        lemma_partners_bound(
                            keys@,
                            n2 as int,
                            diagonal as int,
                            offset1 as int,
                            a + 1,
                            b as int,
                        );
                    }
                    let count: u32 = histogram[diagonal];
                    histogram.set(diagonal, count + 1);
                }
                b += 1;
            }
            proof {
                if b < size {
                    lemma_key_decode(keys@[b as int]);
                }
                assert forall|d: int| 0 <= d < size implies #[trigger] histogram@[d] == total_hits(
                    fp1@,
                    fp2@,
                    d,
                    keys@.take(a + 1),
                ) by {
                    lemma_run_partners(fp1@, fp2@, keys@, d, a as int, b as int);
                }
            }
        }
        proof {
            assert forall|d: int| 0 <= d < size implies #[trigger] histogram@[d] <= a + 1 by {
                lemma_total_bound(fp1@, fp2@, d, keys@.take(a + 1));
            }
        }
        a += 1;
    }
    proof {
        assert(keys@.take(size as int) =~= keys@);
        assert(table.take(size as int) =~= table);
        assert forall|d: int| 0 <= d < size implies #[trigger] histogram@[d] == diagonal_count(
            fp1@,
            fp2@,
            d,
            fp1@.len() as int,
        ) by {
            lemma_total_permuted(fp1@, fp2@, d, keys@, table);
            lemma_table_total(fp1@, fp2@, d, size as int);
        }
    }
    histogram
}

} // verus!
