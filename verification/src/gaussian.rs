//! Smoothing by repeated box filters, in exact integer arithmetic.
//!
//! A box filter of width `w` replaces every item by the mean of the `w` items
//! around it, the sequence being continued past both ends by reflection.
//! Here a pass writes the window *sums*; the means are these sums over `w`,
//! and after several passes over the product of the widths. Nothing is
//! rounded on the way.

use vstd::prelude::*;

verus! {

/// The position that stands at index `v` of a sequence of `size` items that
/// is continued past its ends by reflection: `.. 2 1 0 | 0 1 2 .. size-1 |
/// size-1 size-2 ..`.
pub open spec fn reflect(v: int, size: int) -> int
    recommends
        size > 0,
{
    let r = v % (2 * size);
    if r < size {
        r
    } else {
        2 * size - 1 - r
    }
}

/// The sum of the `k` items that stand at indices `start .. start + k` of the
/// reflected continuation of `input`.
pub open spec fn window_sum(input: Seq<int>, start: int, k: int) -> int
    decreases k,
{
    if k <= 0 {
        0
    } else {
        window_sum(input, start, k - 1) + input[reflect(start + k - 1, input.len() as int)]
    }
}

/// One pass of a box filter of width `w`, without the division: item `i` of
/// the result is the sum of the window of `w` items that begins `w / 2` items
/// before `i`.
pub open spec fn box_pass(input: Seq<int>, w: int) -> Seq<int> {
    Seq::new(input.len(), |i: int| window_sum(input, i - w / 2, w))
}

/// The items of `s` as mathematical integers.
pub open spec fn ints(s: Seq<u64>) -> Seq<int> {
    Seq::new(s.len(), |i: int| s[i] as int)
}

/// A cursor into a slice that is written from its first item on.
pub struct SliceWriter<'a, T> {
    /// The slice that is written.
    pub slice: &'a mut [T],
    /// The position of the next item to write.
    pub index: usize,
}

impl<'a, T> SliceWriter<'a, T> {
    /// A writer at the start of `slice`.
    pub fn new(slice: &'a mut [T]) -> (writer: Self)
        ensures
            writer.index == 0,
            writer.slice@ == old(slice)@,
            final(writer.slice)@ == final(slice)@,
    {
        Self { slice, index: 0 }
    }

    /// Writes `value` at the cursor and moves the cursor on by one.
    pub fn push(&mut self, value: T)
        requires
            old(self).index < old(self).slice@.len(),
        ensures
            final(self).index == old(self).index + 1,
            final(self).slice@ == old(self).slice@.update(old(self).index as int, value),
            final(final(self).slice)@ == final(old(self).slice)@,
    {
        self.slice[self.index] = value;
        self.index += 1;
    }
}

/// A position that walks a sequence to and fro, turning round at both ends.
///
/// At an end the position stays for one more step before it turns, so a walk
/// visits `.. 1 0 0 1 ..` and `.. size-2 size-1 size-1 size-2 ..`.
pub struct ReflectIterator {
    /// Number of items of the sequence.
    pub size: usize,
    /// The current position.
    pub pos: usize,
    /// Whether a step forward leads to higher positions.
    pub forward: bool,
}

impl ReflectIterator {
    /// The position lies inside a sequence that is not empty.
    pub open spec fn wf(&self) -> bool {
        self.size > 0 && self.pos < self.size
    }

    /// Where the walk stands within one round trip of `2 * size` steps.
    pub open spec fn phase(&self) -> int {
        if self.forward {
            self.pos as int
        } else {
            2 * self.size - 1 - self.pos
        }
    }

    /// Whether the walk stands at index `v` of the reflected continuation.
    pub open spec fn tracks(&self, v: int) -> bool {
        self.wf() && self.phase() == v % (2 * self.size)
    }

    /// A walk at the first item, heading forward.
    pub fn new(size: usize) -> (it: Self)
        ensures
            it.size == size,
            it.pos == 0,
            it.forward,
    {
        Self { size, pos: 0, forward: true }
    }

    /// One step forward.
    pub fn move_forward(&mut self)
        requires
            old(self).wf(),
        ensures
            final(self).wf(),
            final(self).size == old(self).size,
            final(self).phase() == if old(self).phase() + 1 == 2 * old(self).size {
                0
            } else {
                old(self).phase() + 1
            },
    {
        if self.forward {
            if self.pos + 1 == self.size {
                self.forward = false;
            } else {
                self.pos += 1;
            }
        } else if self.pos == 0 {
            self.forward = true;
        } else {
            self.pos -= 1;
        }
    }

    /// One step back.
    pub fn move_back(&mut self)
        requires
            old(self).wf(),
        ensures
            final(self).wf(),
            final(self).size == old(self).size,
            final(self).phase() == if old(self).phase() == 0 {
                2 * old(self).size - 1
            } else {
                old(self).phase() - 1
            },
    {
        if self.forward {
            if self.pos == 0 {
                self.forward = false;
            } else {
                self.pos -= 1;
            }
        } else if self.pos + 1 == self.size {
            self.forward = true;
        } else {
            self.pos += 1;
        }
    }

    /// How many steps forward can be made before the walk turns round.
    pub fn safe_forward_distance(&mut self) -> (distance: usize)
        requires
            old(self).wf(),
        ensures
            *final(self) == *old(self),
            distance == if old(self).forward {
                old(self).size - old(self).pos - 1
            } else {
                0
            },
    {
        if self.forward {
            return self.size - self.pos - 1;
        }
        return 0;
    }
}

/// The remainder of the next and of the previous number.
proof fn lemma_mod_step(v: int, m: int)
    requires
        m > 0,
    ensures
        0 <= v % m < m,
        (v + 1) % m == if v % m + 1 == m {
            0
        } else {
            v % m + 1
        },
        (v - 1) % m == if v % m == 0 {
            m - 1
        } else {
            v % m - 1
        },
{
    let q = v / m;
    let r = v % m;
    vstd::arithmetic::div_mod::lemma_fundamental_div_mod(v, m);
    vstd::arithmetic::div_mod::lemma_mod_bound(v, m);
    if r + 1 == m {
        assert(v + 1 == (q + 1) * m + 0) by (nonlinear_arith)
            requires
                v == m * q + r,
                r + 1 == m,
        ;
        vstd::arithmetic::div_mod::lemma_fundamental_div_mod_converse_mod(v + 1, m, q + 1, 0);
    } else {
        assert(v + 1 == q * m + (r + 1)) by (nonlinear_arith)
            requires
                v == m * q + r,
        ;
        vstd::arithmetic::div_mod::lemma_fundamental_div_mod_converse_mod(v + 1, m, q, r + 1);
    }
    if r == 0 {
        assert(v - 1 == (q - 1) * m + (m - 1)) by (nonlinear_arith)
            requires
                v == m * q + r,
                r == 0,
        ;
        vstd::arithmetic::div_mod::lemma_fundamental_div_mod_converse_mod(v - 1, m, q - 1, m - 1);
    } else {
        assert(v - 1 == q * m + (r - 1)) by (nonlinear_arith)
            requires
                v == m * q + r,
        ;
        vstd::arithmetic::div_mod::lemma_fundamental_div_mod_converse_mod(v - 1, m, q, r - 1);
    }
}

/// A reflected index lies in the sequence.
proof fn lemma_reflect_range(v: int, size: int)
    requires
        size > 0,
    ensures
        0 <= reflect(v, size) < size,
{
    lemma_mod_step(v, 2 * size);
}

/// Taking the first item off a window.
proof fn lemma_window_front(input: Seq<int>, start: int, k: int)
    requires
        k >= 1,
    ensures
        window_sum(input, start, k) == input[reflect(start, input.len() as int)] + window_sum(
            input,
            start + 1,
            k - 1,
        ),
    decreases k,
{
    if k > 1 {
        lemma_window_front(input, start, k - 1);
    } else {
        assert(window_sum(input, start, 0) == 0);
        assert(window_sum(input, start + 1, 0) == 0);
    }
}

/// Moving a window on by one item.
proof fn lemma_window_slide(input: Seq<int>, start: int, w: int)
    requires
        w >= 1,
    ensures
        window_sum(input, start + 1, w) == window_sum(input, start, w) - input[reflect(
            start,
            input.len() as int,
        )] + input[reflect(start + w, input.len() as int)],
{
    lemma_window_front(input, start, w);
}

/// A window of `k` items is at most `k` times one of the items.
proof fn lemma_window_max(input: Seq<int>, start: int, k: int) -> (q: int)
    requires
        input.len() > 0,
        k >= 1,
        forall|i: int| 0 <= i < input.len() ==> 0 <= input[i],
    ensures
        0 <= q < input.len(),
        0 <= window_sum(input, start, k) <= k * input[q],
    decreases k,
{
    let size = input.len() as int;
    let p = reflect(start + k - 1, size);
    lemma_reflect_range(start + k - 1, size);
    if k == 1 {
        assert(window_sum(input, start, 0) == 0);
        p
    } else {
        let q0 = lemma_window_max(input, start, k - 1);
        let q = if input[q0] >= input[p] {
            q0
        } else {
            p
        };
        assert((k - 1) * input[q0] + input[p] <= k * input[q]) by (nonlinear_arith)
            requires
                k >= 2,
                0 <= input[q0] <= input[q],
                0 <= input[p] <= input[q],
        ;
        q
    }
}

/// A window of up to `w` items, each of which is at most `limit / w`, sums to
/// `limit` at most.
proof fn lemma_window_bound(input: Seq<int>, start: int, k: int, w: int, limit: int)
    requires
        input.len() > 0,
        0 <= k <= w,
        forall|i: int| 0 <= i < input.len() ==> 0 <= input[i] && #[trigger] input[i] * w <= limit,
    ensures
        0 <= window_sum(input, start, k) <= limit,
{
    if k >= 1 {
        let q = lemma_window_max(input, start, k);
        assert(input[q] * w <= limit);
        assert(k * input[q] <= input[q] * w) by (nonlinear_arith)
            requires
                0 <= k <= w,
                0 <= input[q],
        ;
    } else {
        assert(input[0] * w <= limit);
        assert(0 <= input[0] * w) by (nonlinear_arith)
            requires
                0 <= input[0],
                0 <= w,
        ;
    }
}

/// The walk stands at index `v` and goes to `v + 1`.
proof fn lemma_forward_tracks(before: ReflectIterator, after: ReflectIterator, v: int)
    requires
        before.tracks(v),
        after.wf(),
        after.size == before.size,
        after.phase() == if before.phase() + 1 == 2 * before.size {
            0
        } else {
            before.phase() + 1
        },
    ensures
        after.tracks(v + 1),
{
    lemma_mod_step(v, 2 * before.size);
}

/// The walk stands at index `v` and goes to `v - 1`.
proof fn lemma_back_tracks(before: ReflectIterator, after: ReflectIterator, v: int)
    requires
        before.tracks(v),
        after.wf(),
        after.size == before.size,
        after.phase() == if before.phase() == 0 {
            2 * before.size - 1
        } else {
            before.phase() - 1
        },
    ensures
        after.tracks(v - 1),
{
    lemma_mod_step(v, 2 * before.size);
}

/// A walk that heads forward at position `v` stands at index `v`.
proof fn lemma_plain_tracks(it: ReflectIterator, v: int)
    requires
        it.wf(),
        it.forward,
        it.pos == v,
    ensures
        it.tracks(v),
{
    vstd::arithmetic::div_mod::lemma_small_mod(v as nat, (2 * it.size) as nat);
}

/// A walk that stands at an index inside the sequence heads forward there.
proof fn lemma_tracks_plain(it: ReflectIterator, v: int)
    requires
        it.tracks(v),
        0 <= v < it.size,
    ensures
        it.forward,
        it.pos == v,
{
    vstd::arithmetic::div_mod::lemma_small_mod(v as nat, (2 * it.size) as nat);
}

/// What holds while the window slides: `i` sums are written, `sum` is the
/// next one, and the two walks stand at the ends of its window.
spec fn sliding(
    input: Seq<u64>,
    w: int,
    written: Seq<u64>,
    i: int,
    sum: u64,
    it1: ReflectIterator,
    it2: ReflectIterator,
) -> bool {
    &&& it1.size == input.len()
    &&& it2.size == input.len()
    &&& it1.tracks(i - w / 2)
    &&& it2.tracks(i - w / 2 + w)
    &&& sum == window_sum(ints(input), i - w / 2, w)
    &&& forall|k: int| 0 <= k < i ==> #[trigger] written[k] == window_sum(ints(input), k - w / 2, w)
}

/// The sum of the next window, from the sum of this one and the items at the
/// two walks.
fn slide(input: &[u64], sum: u64, it1: &ReflectIterator, it2: &ReflectIterator, Ghost(v): Ghost<int>, Ghost(w): Ghost<int>) -> (next: u64)
    requires
        w >= 1,
        input@.len() > 0,
        it1.size == input@.len(),
        it2.size == input@.len(),
        it1.tracks(v),
        it2.tracks(v + w),
        sum == window_sum(ints(input@), v, w),
        forall|i: int| 0 <= i < input@.len() ==> #[trigger] input@[i] * w <= u64::MAX,
    ensures
        next == window_sum(ints(input@), v + 1, w),
{
    proof {
        let s = ints(input@);
        lemma_window_slide(s, v, w);
        lemma_window_front(s, v, w);
        assert forall|i: int| 0 <= i < s.len() implies 0 <= s[i] && #[trigger] s[i] * w
            <= u64::MAX by {
            assert(input@[i] * w <= u64::MAX);
        }
        lemma_window_bound(s, v + 1, w - 1, w, u64::MAX as int);
        lemma_window_bound(s, v + 1, w, w, u64::MAX as int);
    }
    sum - input[it1.pos] + input[it2.pos]
}

/// One pass of a box filter of width `w` over `input`, written to the first
/// `input.len()` items of `output`.
///
/// Item `i` becomes the sum of the `w` items of the reflected continuation of
/// `input` that begin `w / 2` items before `i`; the mean is that sum over
/// `w`. With `w == 0` or no input nothing is written.
pub fn box_filter(input: &[u64], output: &mut [u64], w: usize)
    requires
        input@.len() <= old(output)@.len(),
        forall|i: int| 0 <= i < input@.len() ==> #[trigger] input@[i] * w <= u64::MAX,
    ensures
        final(output)@.len() == old(output)@.len(),
        forall|i: int|
            input@.len() <= i < old(output)@.len() ==> #[trigger] final(output)@[i] == old(
                output,
            )@[i],
        w == 0 ==> final(output)@ == old(output)@,
        w > 0 ==> forall|i: int|
            0 <= i < input@.len() ==> #[trigger] final(output)@[i] == box_pass(
                ints(input@),
                w as int,
            )[i],
{
    let size: usize = input.len();
    if w == 0 || size == 0 {
        return ;
    }
    let wl: usize = w / 2;
    let wr: usize = w - wl;

    let mut it1 = ReflectIterator::new(size);
    let mut it2 = ReflectIterator::new(size);
    proof {
        lemma_plain_tracks(it1, 0);
        lemma_plain_tracks(it2, 0);
    }

    let mut k: usize = 0;
    while k < wl
        invariant
            k <= wl,
            it1.size == size,
            it2.size == size,
            it1.tracks(-(k as int)),
            it2.tracks(-(k as int)),
        decreases wl - k,
    {
        let ghost b1 = it1;
        let ghost b2 = it2;
        it1.move_back();
        it2.move_back();
        proof {
            lemma_back_tracks(b1, it1, -(k as int));
            lemma_back_tracks(b2, it2, -(k as int));
        }
        k += 1;
    }

    let ghost start = -(wl as int);
    let mut sum: u64 = 0;
    let mut k: usize = 0;
    while k < w
        invariant
            k <= w,
            size == input@.len(),
            size > 0,
            it2.size == size,
            it2.tracks(start + k),
            sum == window_sum(ints(input@), start, k as int),
            forall|i: int| 0 <= i < input@.len() ==> #[trigger] input@[i] * w <= u64::MAX,
        decreases w - k,
    {
        proof {
            let s = ints(input@);
            assert forall|i: int| 0 <= i < s.len() implies 0 <= s[i] && #[trigger] s[i] * w
                <= u64::MAX by {
                assert(input@[i] * w <= u64::MAX);
            }
            lemma_window_bound(s, start, k + 1, w as int, u64::MAX as int);
        }
        sum += input[it2.pos];
        let ghost b2 = it2;
        it2.move_forward();
        proof {
            lemma_forward_tracks(b2, it2, start + k);
        }
        k += 1;
    }

    let ghost before = output@;
    let mut out = SliceWriter::new(output);

    if size > w {
        let mut i: usize = 0;
        while i < wl
            invariant
                i <= wl,
                w >= 1,
                wl == w / 2,
                size > w,
                size == input@.len(),
                out.index == i,
                out.slice@.len() == before.len(),
                final(out.slice)@ == after_borrow(output)@,
                size <= before.len(),
                forall|j: int| size <= j < before.len() ==> #[trigger] out.slice@[j] == before[j],
                sliding(input@, w as int, out.slice@, i as int, sum, it1, it2),
                forall|j: int| 0 <= j < input@.len() ==> #[trigger] input@[j] * w <= u64::MAX,
            decreases wl - i,
        {
            out.push(sum);
            sum = slide(input, sum, &it1, &it2, Ghost(i - wl), Ghost(w as int));
            let ghost b1 = it1;
            let ghost b2 = it2;
            it1.move_forward();
            it2.move_forward();
            proof {
                lemma_forward_tracks(b1, it1, i - wl);
                lemma_forward_tracks(b2, it2, i - wl + w);
            }
            i += 1;
        }
        proof {
            lemma_tracks_plain(it1, 0);
            lemma_tracks_plain(it2, w as int);
        }
        let mut t: usize = 0;
        while t < size - w - 1
            invariant
                t <= size - w - 1,
                w >= 1,
                wl == w / 2,
                size > w,
                size == input@.len(),
                out.index == wl + t,
                out.slice@.len() == before.len(),
                final(out.slice)@ == after_borrow(output)@,
                size <= before.len(),
                forall|j: int| size <= j < before.len() ==> #[trigger] out.slice@[j] == before[j],
                it1.forward,
                it2.forward,
                it1.pos == t,
                it2.pos == w + t,
                sliding(input@, w as int, out.slice@, wl + t, sum, it1, it2),
                forall|j: int| 0 <= j < input@.len() ==> #[trigger] input@[j] * w <= u64::MAX,
            decreases size - w - 1 - t,
        {
            out.push(sum);
            sum = slide(input, sum, &it1, &it2, Ghost(t as int), Ghost(w as int));
            it2.pos += 1;
            it1.pos += 1;
            proof {
                lemma_plain_tracks(it1, t + 1);
                lemma_plain_tracks(it2, w + t + 1);
            }
            t += 1;
        }
        let ghost base = size - wr - 1;
        let mut i: usize = 0;
        while i < wr + 1
            invariant
                i <= wr + 1,
                w >= 1,
                wl == w / 2,
                wr == w - wl,
                size > w,
                size == input@.len(),
                base == size - wr - 1,
                out.index == base + i,
                out.slice@.len() == before.len(),
                final(out.slice)@ == after_borrow(output)@,
                size <= before.len(),
                forall|j: int| size <= j < before.len() ==> #[trigger] out.slice@[j] == before[j],
                sliding(input@, w as int, out.slice@, base + i, sum, it1, it2),
                forall|j: int| 0 <= j < input@.len() ==> #[trigger] input@[j] * w <= u64::MAX,
            decreases wr + 1 - i,
        {
            out.push(sum);
            sum = slide(input, sum, &it1, &it2, Ghost(base + i - wl), Ghost(w as int));
            let ghost b1 = it1;
            let ghost b2 = it2;
            it1.move_forward();
            it2.move_forward();
            proof {
                lemma_forward_tracks(b1, it1, base + i - wl);
                lemma_forward_tracks(b2, it2, base + i - wl + w);
            }
            i += 1;
        }
    } else {
        let mut i: usize = 0;
        while i < size
            invariant
                i <= size,
                w >= 1,
                wl == w / 2,
                size == input@.len(),
                out.index == i,
                out.slice@.len() == before.len(),
                final(out.slice)@ == after_borrow(output)@,
                size <= before.len(),
                forall|j: int| size <= j < before.len() ==> #[trigger] out.slice@[j] == before[j],
                sliding(input@, w as int, out.slice@, i as int, sum, it1, it2),
                forall|j: int| 0 <= j < input@.len() ==> #[trigger] input@[j] * w <= u64::MAX,
            decreases size - i,
        {
            out.push(sum);
            sum = slide(input, sum, &it1, &it2, Ghost(i - wl), Ghost(w as int));
            let ghost b1 = it1;
            let ghost b2 = it2;
            it1.move_forward();
            it2.move_forward();
            proof {
                lemma_forward_tracks(b1, it1, i - wl);
                lemma_forward_tracks(b2, it2, i - wl + w);
            }
            i += 1;
        }
    }
}

/// The integer square root: the largest `r` with `r * r <= x`.
pub open spec fn isqrt(x: nat) -> nat
    decreases x,
{
    if x == 0 {
        0
    } else {
        let r = isqrt((x - 1) as nat);
        if (r + 1) * (r + 1) <= x {
            r + 1
        } else {
            r
        }
    }
}

/// `isqrt(x)` is a root from below and the next number is not.
pub proof fn lemma_isqrt_bounds(x: nat)
    ensures
        isqrt(x) * isqrt(x) <= x < (isqrt(x) + 1) * (isqrt(x) + 1),
    decreases x,
{
    if x > 0 {
        lemma_isqrt_bounds((x - 1) as nat);
        let r = isqrt((x - 1) as nat);
        let w = isqrt(x);
        if (r + 1) * (r + 1) <= x {
            assert(w == r + 1);
            assert(x < (r + 2) * (r + 2)) by (nonlinear_arith)
                requires
                    x - 1 < (r + 1) * (r + 1),
            ;
            assert((w + 1) * (w + 1) == (r + 2) * (r + 2)) by (nonlinear_arith)
                requires
                    w == r + 1,
            ;
            assert(w * w == (r + 1) * (r + 1)) by (nonlinear_arith)
                requires
                    w == r + 1,
            ;
        } else {
            assert(w == r);
        }
    } else {
        assert(isqrt(0) == 0);
        assert(0 * 0 == 0 && (0 + 1) * (0 + 1) == 1) by (nonlinear_arith);
    }
}

/// The only `w` with `w * w <= x < (w + 1) * (w + 1)` is `isqrt(x)`.
pub proof fn lemma_isqrt_unique(x: nat, w: nat)
    requires
        w * w <= x < (w + 1) * (w + 1),
    ensures
        isqrt(x) == w,
{
    lemma_isqrt_bounds(x);
    let r = isqrt(x);
    assert(r == w) by (nonlinear_arith)
        requires
            w * w <= x < (w + 1) * (w + 1),
            r * r <= x < (r + 1) * (r + 1),
    ;
}

/// The width of the one box filter whose variance comes nearest to that of `n`
/// passes for a Gaussian of deviation `num / den`, rounded down:
/// the integer square root of `12 * sigma^2 / n + 1`.
pub open spec fn ideal_width(num: int, den: int, n: int) -> int {
    isqrt(((12 * num * num + n * den * den) / (n * den * den)) as nat) as int
}

/// The narrower of the two box widths: the largest odd number that is not
/// above the ideal width.
pub open spec fn lower_width(num: int, den: int, n: int) -> int {
    let w = ideal_width(num, den, n);
    if w % 2 == 0 {
        w - 1
    } else {
        w
    }
}

/// The wider of the two box widths, the next odd number.
pub open spec fn upper_width(num: int, den: int, n: int) -> int {
    lower_width(num, den, n) + 2
}

/// How many of the `n` passes use the narrower width:
/// `(12 * sigma^2 - n * wl^2 - 4 * n * wl - 3 * n) / (-4 * wl - 4)`, rounded to
/// the nearest integer, a half upwards.
pub open spec fn lower_passes(num: int, den: int, n: int) -> int {
    let wl = lower_width(num, den, n);
    let a = n * (wl * wl + 4 * wl + 3) * (den * den) - 12 * (num * num);
    let b = (4 * wl + 4) * (den * den);
    (2 * a + b) / (2 * b)
}

/// The width of pass number `k`, counted from zero.
pub open spec fn pass_width(wl: int, wu: int, m: int, k: int) -> int {
    if k < m {
        wl
    } else {
        wu
    }
}

/// The window sums after `passes` passes, the first `m` of width `wl`, the
/// others of width `wu`.
pub open spec fn smooth(s: Seq<int>, wl: int, wu: int, m: int, passes: int) -> Seq<int>
    decreases passes,
{
    if passes <= 0 {
        s
    } else {
        box_pass(smooth(s, wl, wu, m, passes - 1), pass_width(wl, wu, m, passes - 1))
    }
}

/// The product of the widths of the first `passes` passes: what the window
/// sums have to be divided by to give the means.
pub open spec fn smooth_scale(wl: int, wu: int, m: int, passes: int) -> int
    decreases passes,
{
    if passes <= 0 {
        1
    } else {
        smooth_scale(wl, wu, m, passes - 1) * pass_width(wl, wu, m, passes - 1)
    }
}

/// The integer square root of `x`.
fn integer_sqrt(x: u64) -> (r: u64)
    requires
        x < 0x4_0000_0000_0000,
    ensures
        r == isqrt(x as nat),
        r < 0x200_0000,
{
    let mut r: u64 = 0;
    let mut done: bool = false;
    while !done
        invariant
            x < 0x4_0000_0000_0000,
            r * r <= x,
            r < 0x200_0000,
            done ==> x < (r + 1) * (r + 1),
        decreases
            0x200_0000 - r,
            if done {
                0int
            } else {
                1int
            },
    {
        proof {
            assert((r + 1) * (r + 1) <= 0x200_0000 * 0x200_0000) by (nonlinear_arith)
                requires
                    0 <= r < 0x200_0000,
            ;
        }
        let square: u64 = (r + 1) * (r + 1);
        if square <= x {
            proof {
                assert(r + 1 < 0x200_0000) by (nonlinear_arith)
                    requires
                        (r + 1) * (r + 1) <= x,
                        x < 0x4_0000_0000_0000,
                        r >= 0,
                ;
            }
            r += 1;
        } else {
            done = true;
        }
    }
    proof {
        lemma_isqrt_unique(x as nat, r as nat);
    }
    r
}

/// The plan of box filters that stands for a Gaussian of deviation
/// `sigma_num / sigma_den` in `n` passes: the two widths and the number of
/// passes that use the narrower one.
pub fn box_widths(sigma_num: u16, sigma_den: u16, n: usize) -> (plan: (usize, usize, usize))
    requires
        sigma_den > 0,
        1 <= n <= 0xffff,
    ensures
        plan.0 == lower_width(sigma_num as int, sigma_den as int, n as int),
        plan.1 == upper_width(sigma_num as int, sigma_den as int, n as int),
        plan.2 == lower_passes(sigma_num as int, sigma_den as int, n as int),
        plan.0 >= 1,
        plan.0 % 2 == 1,
        plan.2 <= n,
{
    proof {
        assert(sigma_num * sigma_num <= 0xffff * 0xffff) by (nonlinear_arith)
            requires
                0 <= sigma_num <= 0xffff,
        ;
        assert(1 <= sigma_den * sigma_den <= 0xffff * 0xffff) by (nonlinear_arith)
            requires
                1 <= sigma_den <= 0xffff,
        ;
    }
    let num2: u64 = (sigma_num as u64) * (sigma_num as u64);
    let den2: u64 = (sigma_den as u64) * (sigma_den as u64);
    proof {
        assert((n as u64) * den2 <= 0xffff * (0xffff * 0xffff)) by (nonlinear_arith)
            requires
                n <= 0xffff,
                den2 <= 0xffff * 0xffff,
        ;
        assert((n as u64) * den2 >= 1) by (nonlinear_arith)
            requires
                n >= 1,
                den2 >= 1,
        ;
    }
    let nd: u64 = (n as u64) * den2;
    let total: u64 = 12 * num2 + nd;
    let x: u64 = total / nd;
    proof {
        assert(1 <= x <= total) by (nonlinear_arith)
            requires
                x == total / nd,
                total >= nd,
                nd >= 1,
        ;
        assert(sigma_num as int * sigma_num as int == num2);
        assert(n as int * sigma_den as int * sigma_den as int == nd) by (nonlinear_arith)
            requires
                nd == n * den2,
                den2 == sigma_den * sigma_den,
        ;
        assert(12 * sigma_num as int * sigma_num as int == 12 * num2) by (nonlinear_arith)
            requires
                num2 == sigma_num * sigma_num,
        ;
    }
    let w: u64 = integer_sqrt(x);
    proof {
        lemma_isqrt_bounds(x as nat);
        assert(w >= 1) by (nonlinear_arith)
            requires
                x < (w + 1) * (w + 1),
                x >= 1,
                w >= 0,
        ;
        assert(w == ideal_width(sigma_num as int, sigma_den as int, n as int));
    }
    let wl: u64 = if w % 2 == 0 {
        w - 1
    } else {
        w
    };
    let wu: u64 = wl + 2;
    proof {
        assert(wl * wl <= 0x200_0000 * 0x200_0000) by (nonlinear_arith)
            requires
                0 <= wl < 0x200_0000,
        ;
        assert((4 * wl + 4) * den2 <= (4 * 0x200_0000 + 4) * (0xffff * 0xffff)) by (nonlinear_arith)
            requires
                0 <= wl < 0x200_0000,
                0 <= den2 <= 0xffff * 0xffff,
        ;
    }
    let shape: u64 = wl * wl + 4 * wl + 3;
    proof {
        // total < (w + 1)^2 * nd and w^2 * nd <= total
        assert(total < (w + 1) * (w + 1) * nd && w * w * nd <= total) by (nonlinear_arith)
            requires
                x == total / nd,
                nd >= 1,
                w * w <= x < (w + 1) * (w + 1),
        {
            assert(total == nd * (total / nd) + total % nd && 0 <= total % nd < nd);
        }
        assert(shape * nd >= (w + 1) * (w + 1) * nd - nd) by (nonlinear_arith)
            requires
                shape == wl * wl + 4 * wl + 3,
                wl >= w - 1,
                w >= 1,
                nd >= 1,
        ;
        assert(shape * nd <= w * w * nd - nd + (4 * wl + 4) * nd) by (nonlinear_arith)
            requires
                shape == wl * wl + 4 * wl + 3,
                1 <= wl <= w,
                nd >= 1,
        ;
        assert(shape * nd <= 0x1_0000_0000_0000_0000 * 0x1_0000_0000_0000) by (nonlinear_arith)
            requires
                shape <= 0x200_0000 * 0x200_0000 + 4 * 0x200_0000 + 3,
                nd <= 0xffff * (0xffff * 0xffff),
                shape >= 0,
                nd >= 0,
        ;
    }
    let a: u128 = (shape as u128) * (nd as u128) - 12 * (num2 as u128);
    let b: u128 = ((4 * wl + 4) as u128) * (den2 as u128);
    proof {
        assert(b >= 1) by (nonlinear_arith)
            requires
                b == (4 * wl + 4) * den2,
                den2 >= 1,
                wl >= 0,
        ;
        assert(n * b == (4 * wl + 4) * nd) by (nonlinear_arith)
            requires
                b == (4 * wl + 4) * den2,
                nd == n * den2,
        ;
        assert(a <= n * b);
    }
    let m: u128 = (2 * a + b) / (2 * b);
    proof {
        assert(m <= n) by (nonlinear_arith)
            requires
                m == (2 * a + b) / (2 * b),
                0 <= a <= n * b,
                b >= 1,
        {
            assert((2 * a + b) < (n + 1) * (2 * b));
        }
        let wli = lower_width(sigma_num as int, sigma_den as int, n as int);
        assert(wli == wl);
        assert(n as int * (wli * wli + 4 * wli + 3) * (sigma_den as int * sigma_den as int)
            == shape * nd) by (nonlinear_arith)
            requires
                shape == wli * wli + 4 * wli + 3,
                nd == n * den2,
                den2 == sigma_den * sigma_den,
        ;
        assert(12 * (sigma_num as int * sigma_num as int) == 12 * num2);
        assert((4 * wli + 4) * (sigma_den as int * sigma_den as int) == b);
    }
    (wl as usize, wu as usize, m as usize)
}

/// What the window sums of a Gaussian of deviation `num / den` in `n` passes
/// have to be divided by.
pub open spec fn gaussian_scale(num: int, den: int, n: int) -> int {
    smooth_scale(lower_width(num, den, n), upper_width(num, den, n), lower_passes(num, den, n), n)
}

/// The window sums of `s` after the `n` box passes that stand for a Gaussian
/// of deviation `num / den`.
pub open spec fn gaussian(s: Seq<int>, num: int, den: int, n: int) -> Seq<int> {
    smooth(s, lower_width(num, den, n), upper_width(num, den, n), lower_passes(num, den, n), n)
}

/// The scale does not shrink with more passes.
proof fn lemma_scale_grows(wl: int, wu: int, m: int, p: int, q: int)
    requires
        wl >= 1,
        wu >= 1,
        0 <= p <= q,
    ensures
        1 <= smooth_scale(wl, wu, m, p) <= smooth_scale(wl, wu, m, q),
    decreases q,
{
    if p < q {
        lemma_scale_grows(wl, wu, m, p, q - 1);
        let f = smooth_scale(wl, wu, m, q - 1);
        let w = pass_width(wl, wu, m, q - 1);
        assert(f <= f * w) by (nonlinear_arith)
            requires
                f >= 1,
                w >= 1,
        ;
    } else if p > 0 {
        lemma_scale_grows(wl, wu, m, p - 1, p - 1);
        let f = smooth_scale(wl, wu, m, p - 1);
        let w = pass_width(wl, wu, m, p - 1);
        assert(1 <= f * w) by (nonlinear_arith)
            requires
                f >= 1,
                w >= 1,
        ;
    }
}

/// The largest item of a sequence, or zero for an empty one.
proof fn lemma_largest(s: Seq<u64>) -> (mx: int)
    ensures
        mx >= 0,
        forall|i: int| 0 <= i < s.len() ==> #[trigger] s[i] <= mx,
        s.len() > 0 ==> exists|q: int| 0 <= q < s.len() && s[q] == mx,
        s.len() == 0 ==> mx == 0,
    decreases s.len(),
{
    if s.len() == 0 {
        0
    } else {
        let rest = s.drop_last();
        let m0 = lemma_largest(rest);
        assert forall|i: int| 0 <= i < rest.len() implies s[i] <= m0 by {
            assert(rest[i] == s[i]);
        }
        if s.last() >= m0 {
            assert(s[s.len() - 1] == s.last());
            s.last() as int
        } else {
            if rest.len() > 0 {
                let q = choose|q: int| 0 <= q < rest.len() && rest[q] == m0;
                assert(s[q] == m0);
            }
            m0
        }
    }
}

/// After a pass of width `w` no sum is above `w` times the largest item.
proof fn lemma_pass_bound(s: Seq<int>, w: int, limit: int, i: int)
    requires
        w >= 1,
        0 <= i < s.len(),
        forall|j: int| 0 <= j < s.len() ==> 0 <= #[trigger] s[j] <= limit,
    ensures
        0 <= box_pass(s, w)[i] <= limit * w,
{
    let q = lemma_window_max(s, i - w / 2, w);
    assert(w * s[q] <= limit * w) by (nonlinear_arith)
        requires
            w >= 1,
            0 <= s[q] <= limit,
    ;
}

/// What one pass of the smoothing needs and gives: the sums of `passes`
/// passes stand in `cur`, bounded by `mx` times their scale.
spec fn smoothed(
    start: Seq<int>,
    cur: Seq<u64>,
    wl: int,
    wu: int,
    m: int,
    passes: int,
    mx: int,
) -> bool {
    &&& ints(cur) == smooth(start, wl, wu, m, passes)
    &&& forall|i: int|
        0 <= i < cur.len() ==> #[trigger] cur[i] <= mx * smooth_scale(wl, wu, m, passes)
}

/// One more pass takes the sums of `passes` passes to those of `passes + 1`.
proof fn lemma_next_pass(
    start: Seq<int>,
    cur: Seq<u64>,
    next: Seq<u64>,
    wl: int,
    wu: int,
    m: int,
    passes: int,
    mx: int,
)
    requires
        wl >= 1,
        wu >= 1,
        passes >= 0,
        mx >= 0,
        smoothed(start, cur, wl, wu, m, passes, mx),
        next.len() == cur.len(),
        forall|i: int|
            0 <= i < cur.len() ==> #[trigger] next[i] == box_pass(
                ints(cur),
                pass_width(wl, wu, m, passes),
            )[i],
    ensures
        smoothed(start, next, wl, wu, m, passes + 1, mx),
{
    let w = pass_width(wl, wu, m, passes);
    let f = smooth_scale(wl, wu, m, passes);
    lemma_scale_grows(wl, wu, m, passes, passes);
    assert(ints(next) =~= box_pass(ints(cur), w));
    assert(smooth(start, wl, wu, m, passes + 1) == box_pass(
        smooth(start, wl, wu, m, passes + 1 - 1),
        w,
    ));
    assert(0 <= mx * f) by (nonlinear_arith)
        requires
            mx >= 0,
            f >= 1,
    ;
    assert forall|i: int| 0 <= i < next.len() implies #[trigger] next[i] <= mx * smooth_scale(
        wl,
        wu,
        m,
        passes + 1,
    ) by {
        assert forall|j: int| 0 <= j < ints(cur).len() implies 0 <= #[trigger] ints(cur)[j] <= mx
            * f by {
            assert(cur[j] <= mx * f);
        }
        lemma_pass_bound(ints(cur), w, mx * f, i);
        assert(mx * f * w == mx * (f * w)) by (nonlinear_arith);
    }
}

/// The precondition of a pass on `cur`: no sum can overflow.
proof fn lemma_pass_fits(
    start: Seq<int>,
    cur: Seq<u64>,
    wl: int,
    wu: int,
    m: int,
    passes: int,
    n: int,
    mx: int,
)
    requires
        wl >= 1,
        wu >= 1,
        0 <= passes < n,
        mx >= 0,
        smoothed(start, cur, wl, wu, m, passes, mx),
        mx * smooth_scale(wl, wu, m, n) <= u64::MAX,
        smooth_scale(wl, wu, m, n) <= u64::MAX,
    ensures
        forall|i: int|
            0 <= i < cur.len() ==> #[trigger] cur[i] * pass_width(wl, wu, m, passes) <= u64::MAX,
        smooth_scale(wl, wu, m, passes) * pass_width(wl, wu, m, passes) <= u64::MAX,
        smooth_scale(wl, wu, m, passes) >= 1,
{
    let w = pass_width(wl, wu, m, passes);
    let f = smooth_scale(wl, wu, m, passes);
    let d = smooth_scale(wl, wu, m, n);
    lemma_scale_grows(wl, wu, m, passes + 1, n);
    lemma_scale_grows(wl, wu, m, passes, passes);
    assert(smooth_scale(wl, wu, m, passes + 1) == f * w);
    assert forall|i: int| 0 <= i < cur.len() implies #[trigger] cur[i] * w <= u64::MAX by {
        assert(cur[i] <= mx * f);
        assert(cur[i] * w <= mx * d) by (nonlinear_arith)
            requires
                0 <= cur[i] <= mx * f,
                w >= 1,
                f * w <= d,
                mx >= 0,
        {
            assert(cur[i] * w <= mx * f * w);
            assert(mx * f * w == mx * (f * w));
            assert(mx * (f * w) <= mx * d);
        }
    }
}

/// Smooths `input` into `output` by the `n` box passes that stand for a
/// Gaussian of deviation `sigma_num / sigma_den`, and returns the scale.
///
/// The first passes have the narrower width, the others the wider one; the
/// passes go to and fro between the two slices. In the end `output` holds the
/// window sums of all passes, which are the smoothed values times the scale
/// returned. `input` is used up: it holds the sums of all passes where their
/// number is even, and of all but the last where it is odd.
pub fn gaussian_filter(
    input: &mut [u64],
    output: &mut [u64],
    sigma_num: u16,
    sigma_den: u16,
    n: usize,
) -> (scale: u64)
    requires
        old(input)@.len() == old(output)@.len(),
        sigma_den > 0,
        1 <= n <= 0xffff,
        gaussian_scale(sigma_num as int, sigma_den as int, n as int) <= u64::MAX,
        forall|i: int|
            0 <= i < old(input)@.len() ==> #[trigger] old(input)@[i] * gaussian_scale(
                sigma_num as int,
                sigma_den as int,
                n as int,
            ) <= u64::MAX,
    ensures
        scale == gaussian_scale(sigma_num as int, sigma_den as int, n as int),
        final(input)@.len() == old(input)@.len(),
        final(output)@.len() == old(output)@.len(),
        ints(final(output)@) == gaussian(
            ints(old(input)@),
            sigma_num as int,
            sigma_den as int,
            n as int,
        ),
        ints(final(input)@) == smooth(
            ints(old(input)@),
            lower_width(sigma_num as int, sigma_den as int, n as int),
            upper_width(sigma_num as int, sigma_den as int, n as int),
            lower_passes(sigma_num as int, sigma_den as int, n as int),
            if n % 2 == 0 {
                n as int
            } else {
                n - 1
            },
        ),
{
    let (wl, wu, m) = box_widths(sigma_num, sigma_den, n);
    let size: usize = input.len();
    let ghost start = ints(input@);
    let ghost mx = lemma_largest(input@);
    let ghost d = smooth_scale(wl as int, wu as int, m as int, n as int);
    proof {
        if size > 0 {
            let q = choose|q: int| 0 <= q < input@.len() && input@[q] == mx;
            assert(input@[q] * d <= u64::MAX);
        } else {
            assert(mx * d == 0) by (nonlinear_arith)
                requires
                    mx == 0,
            ;
        }
        assert(ints(input@) =~= smooth(start, wl as int, wu as int, m as int, 0));
        assert(mx * smooth_scale(wl as int, wu as int, m as int, 0) == mx) by (nonlinear_arith)
            requires
                smooth_scale(wl as int, wu as int, m as int, 0) == 1,
        ;
    }
    let mut in_output: bool = false;
    let mut scale: u64 = 1;
    let mut pass: usize = 0;
    while pass < m
        invariant
            pass <= m <= n,
            wl >= 1,
            wu == wl + 2,
            mx >= 0,
            input@.len() == size,
            output@.len() == size,
            d == smooth_scale(wl as int, wu as int, m as int, n as int),
            d <= u64::MAX,
            mx * d <= u64::MAX,
            scale == smooth_scale(wl as int, wu as int, m as int, pass as int),
            in_output == (pass % 2 == 1),
            smoothed(
                start,
                if in_output {
                    output@
                } else {
                    input@
                },
                wl as int,
                wu as int,
                m as int,
                pass as int,
                mx,
            ),
            pass >= 1 ==> ints(
                if in_output {
                    input@
                } else {
                    output@
                },
            ) == smooth(start, wl as int, wu as int, m as int, pass - 1),
        decreases m - pass,
    {
        let ghost cur = if in_output {
            output@
        } else {
            input@
        };
        proof {
            lemma_pass_fits(start, cur, wl as int, wu as int, m as int, pass as int, n as int, mx);
        }
        if in_output {
            box_filter(output, input, wl);
            proof {
                lemma_next_pass(start, cur, input@, wl as int, wu as int, m as int, pass as int, mx);
            }
        } else {
            box_filter(input, output, wl);
            proof {
                lemma_next_pass(start, cur, output@, wl as int, wu as int, m as int, pass as int, mx);
            }
        }
        in_output = !in_output;
        scale = scale * (wl as u64);
        pass += 1;
    }
    while pass < n
        invariant
            m <= pass <= n,
            wl >= 1,
            wu == wl + 2,
            mx >= 0,
            input@.len() == size,
            output@.len() == size,
            d == smooth_scale(wl as int, wu as int, m as int, n as int),
            d <= u64::MAX,
            mx * d <= u64::MAX,
            scale == smooth_scale(wl as int, wu as int, m as int, pass as int),
            in_output == (pass % 2 == 1),
            smoothed(
                start,
                if in_output {
                    output@
                } else {
                    input@
                },
                wl as int,
                wu as int,
                m as int,
                pass as int,
                mx,
            ),
            pass >= 1 ==> ints(
                if in_output {
                    input@
                } else {
                    output@
                },
            ) == smooth(start, wl as int, wu as int, m as int, pass - 1),
        decreases n - pass,
    {
        let ghost cur = if in_output {
            output@
        } else {
            input@
        };
        proof {
            lemma_pass_fits(start, cur, wl as int, wu as int, m as int, pass as int, n as int, mx);
        }
        if in_output {
            box_filter(output, input, wu);
            proof {
                lemma_next_pass(start, cur, input@, wl as int, wu as int, m as int, pass as int, mx);
            }
        } else {
            box_filter(input, output, wu);
            proof {
                lemma_next_pass(start, cur, output@, wl as int, wu as int, m as int, pass as int, mx);
            }
        }
        in_output = !in_output;
        scale = scale * (wu as u64);
        pass += 1;
    }
    if !in_output {
        let mut i: usize = 0;
        while i < size
            invariant
                i <= size,
                input@.len() == size,
                output@.len() == size,
                forall|k: int| 0 <= k < i ==> #[trigger] output@[k] == input@[k],
            decreases size - i,
        {
            output[i] = input[i];
            i += 1;
        }
        assert(ints(output@) =~= ints(input@));
    }
    scale
}

} // verus!
