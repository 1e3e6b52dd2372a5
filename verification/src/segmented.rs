//! The segmented coordinator: splitting a buffer's bit range into
//! contiguous segments, scanning each segment for its longest run in
//! parallel, and reducing the per-segment maxima to one global answer.
//!
//! Known limitation, kept on purpose: each segment is scanned in
//! isolation, so a run of the target bit that straddles a segment
//! boundary is seen as two shorter runs, one per segment, and the
//! combined result can under-report the longest run that a direct scan
//! of the whole buffer finds.

use rayon::iter::IntoParallelRefIterator;
use rayon::iter::ParallelIterator;
use vstd::arithmetic::div_mod::{lemma_div_pos_is_pos, lemma_fundamental_div_mod};
use vstd::arithmetic::mul::{lemma_mul_inequality, lemma_mul_nonnegative};
use vstd::prelude::*;
use vstd::string::StringSliceAdditionalSpecFns;

use crate::model::{max_run_len, max_run_step};
use crate::runs::count_max_consecutive_bits;

verus! {

/// How many segments a buffer is split into at most; buffers of fewer
/// bytes get one single-byte segment per byte.
pub const MAX_FILE_SEGMENTS: usize = 16;

/// Which bit value a caller asks to have counted or run-measured.
#[derive(Copy, Clone)]
pub enum CountBit {
    CountBitZeros,
    CountBitOnes,
}

/// The bit value, 0 or 1, that the selector stands for.
pub open spec fn target_bit_of(c: CountBit) -> u8 {
    match c {
        CountBit::CountBitZeros => 0u8,
        CountBit::CountBitOnes => 1u8,
    }
}

/// The label of the selected bit value.
pub open spec fn count_bit_label(c: CountBit) -> Seq<char> {
    match c {
        CountBit::CountBitZeros => "zeros"@,
        CountBit::CountBitOnes => "ones"@,
    }
}

impl CountBit {
    /// The bit value, 0 or 1, that this selector stands for.
    pub fn target_bit(&self) -> (r: u8)
        ensures
            r == target_bit_of(*self),
    {
        match self {
            CountBit::CountBitZeros => 0,
            CountBit::CountBitOnes => 1,
        }
    }

    /// The label of the selected bit value, `"zeros"` or `"ones"`.
    pub fn to_string(&self) -> (r: String)
        ensures
            r@ == count_bit_label(*self),
    {
        match self {
            CountBit::CountBitZeros => "zeros".to_owned(),
            CountBit::CountBitOnes => "ones".to_owned(),
        }
    }
}

/// The bit value a free-form label selects, read from the label's UTF-8
/// bytes: `49` is the character `1`, and `111, 110, 101, 115` spell
/// `ones`, so `"1"`, `"one"` and `"ones"` select ones; every other label,
/// `"0"`, `"zero"` and `"zeros"` among them, selects zeros.
pub open spec fn count_bit_of_bytes(s: Seq<u8>) -> CountBit {
    if s == seq![49u8] || s == seq![111u8, 110u8, 101u8] || s == seq![
        111u8,
        110u8,
        101u8,
        115u8,
    ] {
        CountBit::CountBitOnes
    } else {
        CountBit::CountBitZeros
    }
}

impl From<&str> for CountBit {
    /// Maps a free-form label to the bit value it selects; anything
    /// unrecognized falls back to zeros.
    fn from(item: &str) -> (r: Self) {
        let b = item.as_bytes();
        if b.len() == 1 && b[0] == 49 {
            proof {
                assert(b@ =~= seq![49u8]);
            }
            CountBit::CountBitOnes
        } else if b.len() == 3 && b[0] == 111 && b[1] == 110
            && b[2] == 101 {
            proof {
                assert(b@ =~= seq![111u8, 110u8, 101u8]);
            }
            CountBit::CountBitOnes
        } else if b.len() == 4 && b[0] == 111 && b[1] == 110
            && b[2] == 101 && b[3] == 115 {
            proof {
                assert(b@ =~= seq![111u8, 110u8, 101u8, 115u8]);
            }
            CountBit::CountBitOnes
        } else {
            proof {
                assert(b@ != seq![49u8] && b@ != seq![111u8, 110u8, 101u8] && b@ != seq![
                    111u8,
                    110u8,
                    101u8,
                    115u8,
                ]);
            }
            CountBit::CountBitZeros
        }
    }
}

impl vstd::std_specs::convert::FromSpecImpl<&str> for CountBit {
    open spec fn obeys_from_spec() -> bool {
        true
    }

    open spec fn from_spec(v: &str) -> CountBit {
        count_bit_of_bytes(v.spec_bytes())
    }
}

/// The first bit of segment `i` when a buffer of `n` bytes is split into
/// `c` segments: each segment but the last spans `n / c` whole bytes.
pub open spec fn seg_start(n: int, c: int, i: int) -> int {
    8 * (i * (n / c))
}

/// The bit length of segment `i`: `n / c` bytes, except that the last
/// segment absorbs the remainder bytes so the partition is exact.
pub open spec fn seg_len(n: int, c: int, i: int) -> int {
    if i == c - 1 {
        8 * (n - (c - 1) * (n / c))
    } else {
        8 * (n / c)
    }
}

/// The best `(length, start)` among the longest runs of the first `i`
/// segments, reduced left to right: a later segment's run displaces an
/// earlier one only when it is strictly longer. `(0, 0)` before any
/// segment is seen.
pub open spec fn best_run_upto(data: Seq<u8>, c: int, target: u8, i: int) -> (int, int)
    decreases i,
{
    let n = data.len() as int;
    if i <= 0 {
        (0, 0)
    } else {
        let prev = best_run_upto(data, c, target, i - 1);
        let len = max_run_len(data, seg_len(n, c, i - 1), seg_start(n, c, i - 1), target);
        let at = seg_start(n, c, i - 1) + max_run_step(
            data,
            seg_len(n, c, i - 1),
            seg_start(n, c, i - 1),
            target,
        );
        if len > prev.0 {
            (len, at)
        } else {
            prev
        }
    }
}

/// The `(length, start)` that the segmented scan of the whole buffer
/// reports for runs of `target`, over `c` segments.
pub open spec fn best_segmented_run(data: Seq<u8>, c: int, target: u8) -> (int, int) {
    best_run_upto(data, c, target, c)
}

/// The segments of a buffer of `n` bytes split `c` ways exactly partition
/// its bit range `[0, 8 * n)`: the first starts at bit 0, each ends where
/// the next begins, every one is non-empty, and the last ends at `8 * n`.
pub proof fn lemma_partition_exact(n: int, c: int)
    requires
        1 <= c <= n,
    ensures
        seg_start(n, c, 0) == 0,
        forall|i: int| 0 <= i < c ==> #[trigger] seg_len(n, c, i) >= 8,
        forall|i: int|
            0 <= i < c - 1 ==> seg_start(n, c, i) + seg_len(n, c, i) == seg_start(n, c, i + 1),
        seg_start(n, c, c - 1) + seg_len(n, c, c - 1) == 8 * n,
        forall|i: int|
            0 <= i < c ==> 0 <= #[trigger] seg_start(n, c, i) && seg_start(n, c, i) + seg_len(
                n,
                c,
                i,
            ) <= 8 * n,
{
    let q = n / c;
    lemma_fundamental_div_mod(n, c);
    lemma_div_pos_is_pos(n, c);
    assert(q >= 1) by (nonlinear_arith)
        requires
            n == c * q + n % c,
            0 <= n % c < c,
            1 <= c <= n,
            q >= 0,
    ;
    assert forall|i: int| 0 <= i < c implies #[trigger] seg_len(n, c, i) >= 8 by {
        if i == c - 1 {
            assert(n - (c - 1) * q >= q) by (nonlinear_arith)
                requires
                    n == c * q + n % c,
                    n % c >= 0,
            ;
        }
    }
    assert forall|i: int|
        0 <= i < c - 1 implies seg_start(n, c, i) + seg_len(n, c, i) == seg_start(
        n,
        c,
        i + 1,
    ) by {
        assert((i + 1) * q == i * q + q) by (nonlinear_arith);
    }
    assert(seg_start(n, c, c - 1) + seg_len(n, c, c - 1) == 8 * n);
    assert forall|i: int|
        0 <= i < c implies 0 <= #[trigger] seg_start(n, c, i) && seg_start(n, c, i) + seg_len(
        n,
        c,
        i,
    ) <= 8 * n by {
        lemma_mul_nonnegative(i, q);
        if i < c - 1 {
            assert((i + 1) * q == i * q + q) by (nonlinear_arith);
            lemma_mul_inequality(i + 1, c, q);
            assert(c * q <= n);
        } else {
            assert(i * q == (c - 1) * q);
        }
    }
}

/// The segments are disjoint and ordered: every bit index of the
/// buffer's range falls inside exactly one of them.
pub proof fn lemma_partition_unique_segment(n: int, c: int, b: int)
    requires
        1 <= c <= n,
        0 <= b < 8 * n,
    ensures
        exists|i: int|
            0 <= i < c && (#[trigger] seg_start(n, c, i)) <= b < seg_start(n, c, i) + seg_len(
                n,
                c,
                i,
            ),
        forall|i: int, j: int|
            0 <= i < c && (#[trigger] seg_start(n, c, i)) <= b < seg_start(n, c, i) + seg_len(
                n,
                c,
                i,
            ) && 0 <= j < c && (#[trigger] seg_start(n, c, j)) <= b < seg_start(n, c, j) + seg_len(
                n,
                c,
                j,
            ) ==> i == j,
{
    let q = n / c;
    lemma_partition_exact(n, c);
    // existence: the byte-pair arithmetic picks the segment of b
    if b < 8 * ((c - 1) * q) {
        let i = b / (8 * q);
        lemma_fundamental_div_mod(b, 8 * q);
        lemma_div_pos_is_pos(b, 8 * q);
        assert(8 * (i * q) == (8 * q) * i) by (nonlinear_arith);
        assert(i < c - 1) by (nonlinear_arith)
            requires
                b == (8 * q) * i + b % (8 * q),
                0 <= b % (8 * q),
                b < 8 * ((c - 1) * q),
                q >= 1,
        ;
        assert(seg_start(n, c, i) <= b < seg_start(n, c, i) + seg_len(n, c, i));
    } else {
        let i = c - 1;
        assert(seg_start(n, c, i) <= b < seg_start(n, c, i) + seg_len(n, c, i));
    }
    // disjointness: a segment ends no later than any later one begins
    assert forall|i: int, j: int| 0 <= i < j < c implies #[trigger] seg_start(n, c, i) + seg_len(
        n,
        c,
        i,
    ) <= #[trigger] seg_start(n, c, j) by {
        assert((i + 1) * q <= j * q) by {
            lemma_mul_inequality(i + 1, j, q);
        }
        assert((i + 1) * q == i * q + q) by (nonlinear_arith);
    }
}

/// Splits a buffer of `data_bytes` bytes into `segment_count` contiguous
/// bit ranges, each given as `(first bit index, bit length)`. Every
/// segment but the last spans `data_bytes / segment_count` bytes; the
/// last absorbs the remainder bytes, so the ranges cover every byte
/// exactly once.
pub fn segment_bounds(data_bytes: usize, segment_count: usize) -> (segs: Vec<(usize, usize)>)
    requires
        1 <= segment_count <= data_bytes,
        8 * data_bytes <= usize::MAX,
    ensures
        segs@.len() == segment_count,
        forall|i: int|
            0 <= i < segment_count ==> (#[trigger] segs@[i]).0 == seg_start(
                data_bytes as int,
                segment_count as int,
                i,
            ) && segs@[i].1 == seg_len(data_bytes as int, segment_count as int, i),
{
    let ghost n: int = data_bytes as int;
    let ghost c: int = segment_count as int;
    let bytes_per_segment = data_bytes / segment_count;
    let mut segs: Vec<(usize, usize)> = Vec::new();
    let mut i: usize = 0;
    while i < segment_count
        invariant
            i <= segment_count,
            n == data_bytes as int,
            c == segment_count as int,
            1 <= segment_count <= data_bytes,
            8 * data_bytes <= usize::MAX,
            bytes_per_segment == n / c,
            segs@.len() == i,
            forall|k: int|
                0 <= k < i ==> (#[trigger] segs@[k]).0 == seg_start(n, c, k) && segs@[k].1
                    == seg_len(n, c, k),
        decreases segment_count - i,
    {
        proof {
            lemma_fundamental_div_mod(n, c);
            lemma_div_pos_is_pos(n, c);
            lemma_mul_nonnegative(i as int, n / c);
            lemma_mul_inequality(i as int, c, n / c);
            assert(c * (n / c) == (n / c) * c) by (nonlinear_arith);
            lemma_mul_inequality(i as int * (n / c), n, 8);
        }
        let byte_index = i * bytes_per_segment;
        let bit_index = byte_index * 8;
        let this_segment_bytes = if i == segment_count - 1 {
            data_bytes - byte_index
        } else {
            bytes_per_segment
        };
        proof {
            lemma_mul_inequality(this_segment_bytes as int, n, 8);
        }
        let this_segment_bits = this_segment_bytes * 8;
        segs.push((bit_index, this_segment_bits));
        i = i + 1;
    }
    segs
}

/// Relies on rayon's `par_iter`, `map` and `collect`: mapping an indexed
/// parallel iterator and collecting into a `Vec` yields exactly one
/// result per input element, in input order; the closure itself only
/// calls this library's verified maximal-run scanner.
#[verifier::external_body]
fn par_max_runs(data: &[u8], segs: &Vec<(usize, usize)>, zero_or_one: u8) -> (r: Vec<
    (usize, usize),
>)
    requires
        zero_or_one == 0 || zero_or_one == 1,
        forall|i: int|
            0 <= i < segs@.len() ==> (#[trigger] segs@[i]).0 < 8 * data@.len() && segs@[i].0
                + segs@[i].1 <= usize::MAX,
    ensures
        r@.len() == segs@.len(),
        forall|i: int|
            0 <= i < segs@.len() ==> (#[trigger] r@[i]).0 == max_run_len(
                data@,
                segs@[i].1 as int,
                segs@[i].0 as int,
                zero_or_one,
            ) && r@[i].1 == segs@[i].0 + max_run_step(
                data@,
                segs@[i].1 as int,
                segs@[i].0 as int,
                zero_or_one,
            ),
{
    segs.par_iter().map(
        |seg: &(usize, usize)| count_max_consecutive_bits(data, seg.1, seg.0, zero_or_one),
    ).collect()
}

/// Scans the buffer for the longest run of `zero_or_one` bits by
/// splitting it into `segment_count` contiguous segments, scanning each
/// in parallel, and keeping the strictly longest per-segment run, the
/// first one on ties. A run straddling a segment boundary is counted as
/// two shorter runs, so the result can under-report a direct whole-buffer
/// scan.
pub fn count_max_consecutive_bits_parallel(
    data: &[u8],
    segment_count: usize,
    zero_or_one: u8,
) -> (r: (usize, usize))
    requires
        zero_or_one == 0 || zero_or_one == 1,
        1 <= segment_count <= data@.len(),
        8 * data@.len() <= usize::MAX,
    ensures
        r.0 == best_segmented_run(data@, segment_count as int, zero_or_one).0,
        r.1 == best_segmented_run(data@, segment_count as int, zero_or_one).1,
{
    let ghost n: int = data@.len() as int;
    let ghost c: int = segment_count as int;
    let data_bytes = data.len();
    let segs = segment_bounds(data_bytes, segment_count);
    proof {
        lemma_partition_exact(n, c);
    }
    let results = par_max_runs(data, &segs, zero_or_one);
    let mut max_consec: usize = 0;
    let mut max_at: usize = 0;
    let mut i: usize = 0;
    while i < results.len()
        invariant
            i <= results@.len(),
            results@.len() == segment_count,
            n == data@.len() as int,
            c == segment_count as int,
            max_consec as int == best_run_upto(data@, c, zero_or_one, i as int).0,
            max_at as int == best_run_upto(data@, c, zero_or_one, i as int).1,
            forall|k: int|
                0 <= k < results@.len() ==> (#[trigger] results@[k]).0 == max_run_len(
                    data@,
                    seg_len(n, c, k),
                    seg_start(n, c, k),
                    zero_or_one,
                ) && results@[k].1 == seg_start(n, c, k) + max_run_step(
                    data@,
                    seg_len(n, c, k),
                    seg_start(n, c, k),
                    zero_or_one,
                ),
        decreases results@.len() - i,
    {
        let pair = results[i];
        let consec = pair.0;
        let at = pair.1;
        if consec > max_consec {
            max_consec = consec;
            max_at = at;
        }
        i = i + 1;
    }
    (max_consec, max_at)
}

/// The number of segments a buffer of `n` bytes is scanned with: one per
/// byte for small buffers, at most the fixed segment cap.
pub open spec fn segment_count_for(n: int) -> int {
    if n < MAX_FILE_SEGMENTS as int {
        n
    } else {
        MAX_FILE_SEGMENTS as int
    }
}

/// The segmented maximal-run scan of the whole buffer for the bit value
/// `bit_count_type` selects, as `(length, first bit index)`.
pub fn get_max_data(data: &[u8], bit_count_type: CountBit) -> (r: (usize, usize))
    requires
        data@.len() >= 1,
        8 * data@.len() <= usize::MAX,
    ensures
        r.0 == best_segmented_run(
            data@,
            segment_count_for(data@.len() as int),
            target_bit_of(bit_count_type),
        ).0,
        r.1 == best_segmented_run(
            data@,
            segment_count_for(data@.len() as int),
            target_bit_of(bit_count_type),
        ).1,
{
    let zero_or_one: u8 = match bit_count_type {
        CountBit::CountBitZeros => 0,
        CountBit::CountBitOnes => 1,
    };
    let data_bytes = data.len();
    let segment_count = if data_bytes < MAX_FILE_SEGMENTS {
        data_bytes
    } else {
        MAX_FILE_SEGMENTS
    };
    count_max_consecutive_bits_parallel(data, segment_count, zero_or_one)
}

} // verus!
