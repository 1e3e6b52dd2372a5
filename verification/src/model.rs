//! The mathematical model of the library: what a bit of a buffer is, how a
//! linear bit index wraps around the buffer's bit length, and what counts
//! and runs of a target bit value mean.

use vstd::prelude::*;

verus! {

/// Number of addressable bits in a buffer of the given bytes.
pub open spec fn bit_len(data: Seq<u8>) -> int {
    data.len() as int * 8
}

/// The bit of `byte` at intra-byte position `j`, most-significant-bit first:
/// position 0 is the highest-order bit, position 7 the lowest-order bit.
/// The result is the bit's value, 0 or 1.
pub open spec fn bit_of_byte(byte: u8, j: int) -> u8
    recommends
        0 <= j < 8,
{
    if byte & (1u8 << ((7 - j) as u8)) == 0 {
        0u8
    } else {
        1u8
    }
}

/// The bit of the buffer at linear bit index `i`: bit `i % 8` of byte `i / 8`.
pub open spec fn bit_at(data: Seq<u8>, i: int) -> u8
    recommends
        0 <= i < bit_len(data),
{
    bit_of_byte(data[i / 8], i % 8)
}

/// The bit a scan that started at `start` reads on its step `k`: the linear
/// index `start + k` normalized back into `[0, bit_len)`, treating the
/// buffer as circular.
pub open spec fn step_bit(data: Seq<u8>, start: int, k: int) -> u8
    recommends
        bit_len(data) > 0,
        0 <= start < bit_len(data),
        0 <= k,
{
    bit_at(data, (start + k) % bit_len(data))
}

/// How many of the first `n` bits of the buffer equal `target`.
pub open spec fn count_bits_upto(data: Seq<u8>, target: u8, n: int) -> int
    decreases n,
{
    if n <= 0 {
        0
    } else {
        count_bits_upto(data, target, n - 1) + if bit_at(data, n - 1) == target {
            1int
        } else {
            0int
        }
    }
}

proof fn lemma_count_split_upto(data: Seq<u8>, n: int)
    requires
        n >= 0,
    ensures
        count_bits_upto(data, 0, n) + count_bits_upto(data, 1, n) == n,
    decreases n,
{
    if n > 0 {
        lemma_count_split_upto(data, n - 1);
    }
}

/// Every bit is either a 0 or a 1, so the zeros and the ones of a buffer
/// together account for every one of its bits.
pub proof fn lemma_count_total(data: Seq<u8>)
    ensures
        count_bits_upto(data, 0, bit_len(data)) + count_bits_upto(data, 1, bit_len(data))
            == bit_len(data),
{
    lemma_count_split_upto(data, bit_len(data));
}

/// The length of the contiguous run of `target` bits a scan sees from its
/// step `k` on: how many consecutive steps, up to step `window`, read a bit
/// equal to `target` before the first bit that does not.
pub open spec fn run_len_from(data: Seq<u8>, window: int, start: int, target: u8, k: int) -> int
    recommends
        bit_len(data) > 0,
        0 <= start < bit_len(data),
        0 <= k <= window,
    decreases window - k,
{
    if k < 0 || k >= window {
        0
    } else if step_bit(data, start, k) == target {
        1 + run_len_from(data, window, start, target, k + 1)
    } else {
        0
    }
}

/// The longest run of `target` bits that begins at one of the steps
/// `0 .. s` of a scan of `window` bits (0 if there is none).
pub open spec fn max_run_upto(data: Seq<u8>, window: int, start: int, target: u8, s: int) -> int
    recommends
        bit_len(data) > 0,
        0 <= start < bit_len(data),
        0 <= s <= window,
    decreases s,
{
    if s <= 0 {
        0
    } else {
        let prev = max_run_upto(data, window, start, target, s - 1);
        let cur = run_len_from(data, window, start, target, s - 1);
        if cur > prev {
            cur
        } else {
            prev
        }
    }
}

/// The earliest step among `0 .. s` whose run reaches the maximum length,
/// 0 if `s <= 1`: later runs of equal length never displace an earlier one.
pub open spec fn first_max_upto(data: Seq<u8>, window: int, start: int, target: u8, s: int) -> int
    recommends
        bit_len(data) > 0,
        0 <= start < bit_len(data),
        0 <= s <= window,
    decreases s,
{
    if s <= 1 {
        0
    } else {
        if run_len_from(data, window, start, target, s - 1)
            > max_run_upto(data, window, start, target, s - 1) {
            s - 1
        } else {
            first_max_upto(data, window, start, target, s - 1)
        }
    }
}

/// The length of the longest run of `target` bits in a scan of `window`
/// bits that begins at `start`.
pub open spec fn max_run_len(data: Seq<u8>, window: int, start: int, target: u8) -> int {
    max_run_upto(data, window, start, target, window)
}

/// The step at which the first longest run of a scan of `window` bits
/// begins (as an offset from `start`).
pub open spec fn max_run_step(data: Seq<u8>, window: int, start: int, target: u8) -> int {
    first_max_upto(data, window, start, target, window)
}

/// A run length from step `k` is at least 0 and at most `window - k`; its
/// bits all equal `target` and, unless it reaches the window's end, the bit
/// right after it differs from `target`.
pub proof fn lemma_run_len_props(data: Seq<u8>, window: int, start: int, target: u8, k: int)
    requires
        0 <= k <= window,
    ensures
        0 <= run_len_from(data, window, start, target, k) <= window - k,
        forall|j: int|
            k <= j < k + run_len_from(data, window, start, target, k) ==> step_bit(
                data,
                start,
                j,
            ) == target,
        k + run_len_from(data, window, start, target, k) < window ==> step_bit(
            data,
            start,
            k + run_len_from(data, window, start, target, k),
        ) != target,
    decreases window - k,
{
    if k < window && step_bit(data, start, k) == target {
        lemma_run_len_props(data, window, start, target, k + 1);
    }
}

/// A stretch of `m` matching bits from step `k`, ended by the window or by
/// a mismatching bit, is exactly the run at step `k`.
pub proof fn lemma_run_len_exact(
    data: Seq<u8>,
    window: int,
    start: int,
    target: u8,
    k: int,
    m: int,
)
    requires
        0 <= k,
        0 <= m,
        k + m <= window,
        forall|j: int| k <= j < k + m ==> step_bit(data, start, j) == target,
        k + m < window ==> step_bit(data, start, k + m) != target,
    ensures
        run_len_from(data, window, start, target, k) == m,
    decreases m,
{
    if m > 0 {
        assert(step_bit(data, start, k) == target);
        lemma_run_len_exact(data, window, start, target, k + 1, m - 1);
    }
}

/// Maxima over a prefix of the steps are never negative.
pub proof fn lemma_max_upto_nonneg(data: Seq<u8>, window: int, start: int, target: u8, s: int)
    ensures
        max_run_upto(data, window, start, target, s) >= 0,
    decreases s,
{
    if s > 0 {
        lemma_max_upto_nonneg(data, window, start, target, s - 1);
    }
}

proof fn lemma_first_max_upto_props(data: Seq<u8>, window: int, start: int, target: u8, s: int)
    requires
        0 <= s <= window,
    ensures
        forall|k: int|
            0 <= k < s ==> run_len_from(data, window, start, target, k) <= max_run_upto(
                data,
                window,
                start,
                target,
                s,
            ),
        s > 0 ==> 0 <= first_max_upto(data, window, start, target, s) < s && run_len_from(
            data,
            window,
            start,
            target,
            first_max_upto(data, window, start, target, s),
        ) == max_run_upto(data, window, start, target, s),
        forall|j: int|
            0 <= j < first_max_upto(data, window, start, target, s) ==> run_len_from(
                data,
                window,
                start,
                target,
                j,
            ) < max_run_upto(data, window, start, target, s),
    decreases s,
{
    if s > 0 {
        lemma_first_max_upto_props(data, window, start, target, s - 1);
        lemma_run_len_props(data, window, start, target, s - 1);
    }
}

/// The longest run a window scan reports, and the first-wins tie-break:
/// no step of the window begins a run longer than the reported one, the
/// reported start does reach that length, and every step before it
/// begins a strictly shorter run.
pub proof fn lemma_max_run_first_wins(data: Seq<u8>, window: int, start: int, target: u8)
    requires
        window >= 0,
    ensures
        forall|k: int|
            0 <= k < window ==> run_len_from(data, window, start, target, k) <= max_run_len(
                data,
                window,
                start,
                target,
            ),
        window > 0 ==> 0 <= max_run_step(data, window, start, target) < window && run_len_from(
            data,
            window,
            start,
            target,
            max_run_step(data, window, start, target),
        ) == max_run_len(data, window, start, target),
        forall|j: int|
            0 <= j < max_run_step(data, window, start, target) ==> run_len_from(
                data,
                window,
                start,
                target,
                j,
            ) < max_run_len(data, window, start, target),
{
    lemma_first_max_upto_props(data, window, start, target, window);
}

/// Extending the scanned prefix across one unbroken stretch of matching
/// bits: the steps `s .. e` all match and the stretch ends at `e` (by a
/// mismatch or by the window's end), so among the steps `s .. t` the
/// longest run is the whole stretch `e - s` seen at step `s`, and the
/// first maximum moves to `s` exactly when that stretch strictly beats
/// the longest run seen before `s`.
pub proof fn lemma_max_upto_extend(
    data: Seq<u8>,
    window: int,
    start: int,
    target: u8,
    s: int,
    e: int,
    t: int,
)
    requires
        0 <= s < t <= e <= window,
        forall|j: int| s <= j < e ==> step_bit(data, start, j) == target,
        e < window ==> step_bit(data, start, e) != target,
    ensures
        max_run_upto(data, window, start, target, t) == if e - s > max_run_upto(
            data,
            window,
            start,
            target,
            s,
        ) {
            e - s
        } else {
            max_run_upto(data, window, start, target, s)
        },
        first_max_upto(data, window, start, target, t) == if e - s > max_run_upto(
            data,
            window,
            start,
            target,
            s,
        ) {
            s
        } else {
            first_max_upto(data, window, start, target, s)
        },
    decreases t - s,
{
    lemma_run_len_exact(data, window, start, target, s, e - s);
    if t == s + 1 {
        if s == 0 {
            assert(first_max_upto(data, window, start, target, 0) == 0);
            assert(max_run_upto(data, window, start, target, 0) == 0);
        }
    } else {
        lemma_max_upto_extend(data, window, start, target, s, e, t - 1);
        lemma_run_len_exact(data, window, start, target, t - 1, e - (t - 1));
        lemma_max_upto_nonneg(data, window, start, target, s);
    }
}

} // verus!
