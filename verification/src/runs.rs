//! The sequential scanners: counting how many leading bits of a target
//! value stand at a given offset, and finding the longest run of the
//! target value inside a bounded window, both with wraparound.
//!
//! Both scanners keep the current byte cached across iterations and only
//! re-fetch a byte when the intra-byte offset wraps past 7, instead of
//! looking every bit up from scratch.

use vstd::arithmetic::div_mod::{
    lemma_fundamental_div_mod, lemma_fundamental_div_mod_converse, lemma_small_mod,
};
use vstd::prelude::*;

use crate::model::{
    bit_len, first_max_upto, lemma_max_upto_extend, lemma_max_upto_nonneg, lemma_run_len_exact,
    max_run_len, max_run_step, max_run_upto, run_len_from, step_bit,
};

verus! {

const BITS_IN_BYTE: usize = 8;

/// One step of the circular walk: from the normalized position of step `i`
/// to the normalized position of step `i + 1`.
proof fn lemma_wrap_step(start: int, i: int, bl: int)
    requires
        bl > 0,
        0 <= start,
        0 <= i,
    ensures
        (start + i + 1) % bl == if (start + i) % bl == bl - 1 {
            0int
        } else {
            (start + i) % bl + 1
        },
{
    let p = (start + i) % bl;
    let q = (start + i) / bl;
    lemma_fundamental_div_mod(start + i, bl);
    if p == bl - 1 {
        assert(start + i + 1 == (q + 1) * bl + 0) by (nonlinear_arith)
            requires
                start + i == bl * q + p,
                p == bl - 1,
        ;
        lemma_fundamental_div_mod_converse(start + i + 1, bl, q + 1, 0);
    } else {
        assert(start + i + 1 == q * bl + (p + 1)) by (nonlinear_arith)
            requires
                start + i == bl * q + p,
        ;
        lemma_fundamental_div_mod_converse(start + i + 1, bl, q, p + 1);
    }
}

/// Counts the length of the contiguous run of `zero_or_one` bits that
/// starts at bit `bit_offset`, examining at most `bin_size` bits and
/// wrapping past the end of the buffer back to bit 0. Stops at the first
/// bit that differs from the target; if every examined bit matches, the
/// result is `bin_size` itself.
pub fn count_leading_bits(data: &[u8], bin_size: usize, bit_offset: usize, zero_or_one: u8) -> (r:
    usize)
    requires
        zero_or_one == 0 || zero_or_one == 1,
        bit_offset < 8 * data@.len(),
    ensures
        r == run_len_from(data@, bin_size as int, bit_offset as int, zero_or_one, 0),
        r <= bin_size,
        forall|k: int| 0 <= k < r ==> step_bit(data@, bit_offset as int, k) == zero_or_one,
        r < bin_size ==> step_bit(data@, bit_offset as int, r as int) != zero_or_one,
{
    let ghost bl: int = bit_len(data@);
    let data_size_bytes = data.len();
    let mut leading_bits: usize = 0;
    let mut current_byte_index: usize = bit_offset >> 3;
    proof {
        assert(bit_offset >> 3 == bit_offset / 8) by (bit_vector);
        assert(((bit_offset >> 3) << 3) == 8 * (bit_offset >> 3)) by (bit_vector);
        lemma_fundamental_div_mod(bit_offset as int, 8);
    }
    let mut current_byte: u8 = data[current_byte_index];
    let bit_index_of_byte = current_byte_index << 3;
    let mut offset: usize = bit_offset - bit_index_of_byte;
    let mut i: usize = 0;
    proof {
        lemma_small_mod(bit_offset as nat, bl as nat);
    }
    while i < bin_size
        invariant_except_break
            i <= bin_size,
            leading_bits == i,
            zero_or_one == 0 || zero_or_one == 1,
            data_size_bytes == data@.len(),
            bl == bit_len(data@),
            bit_offset < bl,
            offset < 8,
            current_byte_index < data_size_bytes,
            8 * current_byte_index + offset == (bit_offset + i) % bl,
            current_byte == data@[current_byte_index as int],
            forall|k: int| 0 <= k < i ==> step_bit(data@, bit_offset as int, k) == zero_or_one,
        ensures
            leading_bits <= bin_size,
            forall|k: int|
                0 <= k < leading_bits ==> step_bit(data@, bit_offset as int, k) == zero_or_one,
            leading_bits < bin_size ==> step_bit(data@, bit_offset as int, leading_bits as int)
                != zero_or_one,
        decreases bin_size - i,
    {
        let sh: u8 = (7 - offset) as u8;
        let mask: u8 = 1u8 << sh;
        let masked = current_byte & mask;
        let val: u8 = if masked == 0 {
            0
        } else {
            1
        };
        proof {
            let pos = (bit_offset + i) % bl;
            lemma_fundamental_div_mod_converse(pos, 8, current_byte_index as int, offset as int);
            assert(val == step_bit(data@, bit_offset as int, i as int));
        }
        if val == zero_or_one {
            leading_bits = leading_bits + 1;
        } else {
            break ;
        }
        proof {
            lemma_wrap_step(bit_offset as int, i as int, bl);
        }
        offset = offset + 1;
        if offset == BITS_IN_BYTE {
            offset = 0;
            current_byte_index = current_byte_index + 1;
            if current_byte_index == data_size_bytes {
                current_byte_index = 0;
            }
            current_byte = data[current_byte_index];
        }
        i = i + 1;
    }
    proof {
        lemma_run_len_exact(
            data@,
            bin_size as int,
            bit_offset as int,
            zero_or_one,
            0,
            leading_bits as int,
        );
    }
    leading_bits
}

/// Counts the leading run of zero bits from `bit_offset` within a window
/// of `bin_size` bits, with wraparound.
pub fn count_leading_zeros(data: &[u8], bin_size: usize, bit_offset: usize) -> (r: usize)
    requires
        bit_offset < 8 * data@.len(),
    ensures
        r == run_len_from(data@, bin_size as int, bit_offset as int, 0, 0),
{
    count_leading_bits(data, bin_size, bit_offset, 0)
}

/// Counts the leading run of one bits from `bit_offset` within a window
/// of `bin_size` bits, with wraparound.
pub fn count_leading_ones(data: &[u8], bin_size: usize, bit_offset: usize) -> (r: usize)
    requires
        bit_offset < 8 * data@.len(),
    ensures
        r == run_len_from(data@, bin_size as int, bit_offset as int, 1, 0),
{
    count_leading_bits(data, bin_size, bit_offset, 1)
}

/// Scans exactly `bin_size` bits from `bit_offset` (wrapping past the end
/// of the buffer) and returns the longest run of `zero_or_one` bits found,
/// as `(length, start)`, where `start` counts linearly from `bit_offset`
/// without re-normalization. Of several runs of the greatest length the
/// first one is reported; a window with no matching bit yields
/// `(0, bit_offset)`.
pub fn count_max_consecutive_bits(
    data: &[u8],
    bin_size: usize,
    bit_offset: usize,
    zero_or_one: u8,
) -> (r: (usize, usize))
    requires
        zero_or_one == 0 || zero_or_one == 1,
        bit_offset < 8 * data@.len(),
        bit_offset + bin_size <= usize::MAX,
    ensures
        r.0 == max_run_len(data@, bin_size as int, bit_offset as int, zero_or_one),
        r.1 == bit_offset + max_run_step(data@, bin_size as int, bit_offset as int, zero_or_one),
{
    let ghost bl: int = bit_len(data@);
    let ghost w: int = bin_size as int;
    let ghost st: int = bit_offset as int;
    let data_size_bytes = data.len();
    let mut max_consec: usize = 0;
    let mut max_at: usize = bit_offset;
    let mut current_byte_index: usize = bit_offset >> 3;
    proof {
        assert(bit_offset >> 3 == bit_offset / 8) by (bit_vector);
        assert(((bit_offset >> 3) << 3) == 8 * (bit_offset >> 3)) by (bit_vector);
        lemma_fundamental_div_mod(bit_offset as int, 8);
    }
    let mut current_byte: u8 = data[current_byte_index];
    let bit_index_of_byte = current_byte_index << 3;
    let mut offset: usize = bit_offset - bit_index_of_byte;
    let mut current_consec: usize = 0;
    let mut current_at: usize = max_at;
    let mut i: usize = 0;
    proof {
        lemma_small_mod(bit_offset as nat, bl as nat);
    }
    while i < bin_size
        invariant
            i <= bin_size,
            zero_or_one == 0 || zero_or_one == 1,
            data_size_bytes == data@.len(),
            bl == bit_len(data@),
            w == bin_size as int,
            st == bit_offset as int,
            bit_offset < bl,
            bit_offset + bin_size <= usize::MAX,
            offset < 8,
            current_byte_index < data_size_bytes,
            8 * current_byte_index + offset == (bit_offset + i) % bl,
            current_byte == data@[current_byte_index as int],
            current_consec <= i,
            current_at == bit_offset + (i - current_consec),
            forall|k: int|
                i - current_consec <= k < i ==> step_bit(data@, st, k) == zero_or_one,
            i - current_consec > 0 ==> step_bit(data@, st, i - current_consec - 1) != zero_or_one,
            max_consec == max_run_upto(data@, w, st, zero_or_one, i - current_consec),
            max_at == bit_offset + first_max_upto(data@, w, st, zero_or_one, i - current_consec),
            max_consec <= i,
            first_max_upto(data@, w, st, zero_or_one, i - current_consec) <= i,
        decreases bin_size - i,
    {
        let sh: u8 = (7 - offset) as u8;
        let mask: u8 = 1u8 << sh;
        let masked = current_byte & mask;
        let val: u8 = if masked == 0 {
            0
        } else {
            1
        };
        proof {
            let pos = (bit_offset + i) % bl;
            lemma_fundamental_div_mod_converse(pos, 8, current_byte_index as int, offset as int);
            assert(val == step_bit(data@, st, i as int));
        }
        if val == zero_or_one {
            current_consec = current_consec + 1;
        } else {
            proof {
                let s = i - current_consec;
                lemma_max_upto_nonneg(data@, w, st, zero_or_one, i as int);
                if current_consec > 0 {
                    lemma_max_upto_extend(data@, w, st, zero_or_one, s, i as int, i as int);
                }
                assert(run_len_from(data@, w, st, zero_or_one, i as int) == 0);
            }
            if current_consec > max_consec {
                max_consec = current_consec;
                max_at = current_at;
            }
            current_consec = 0;
            // after a mismatch, the next bit is where a new run could begin
            current_at = bit_offset + i + 1;
        }
        proof {
            lemma_wrap_step(bit_offset as int, i as int, bl);
        }
        offset = offset + 1;
        if offset == BITS_IN_BYTE {
            offset = 0;
            current_byte_index = current_byte_index + 1;
            if current_byte_index == data_size_bytes {
                current_byte_index = 0;
            }
            current_byte = data[current_byte_index];
        }
        i = i + 1;
    }
    proof {
        let s = i - current_consec;
        if current_consec > 0 {
            lemma_max_upto_extend(data@, w, st, zero_or_one, s, w, w);
        }
    }
    if current_consec > max_consec {
        max_consec = current_consec;
        max_at = current_at;
    }
    (max_consec, max_at)
}

/// The longest run of zero bits in a window of `bin_size` bits from
/// `bit_offset`, as `(length, start)`.
pub fn count_max_consecutive_zeros(data: &[u8], bin_size: usize, bit_offset: usize) -> (r: (
    usize,
    usize,
))
    requires
        bit_offset < 8 * data@.len(),
        bit_offset + bin_size <= usize::MAX,
    ensures
        r.0 == max_run_len(data@, bin_size as int, bit_offset as int, 0),
        r.1 == bit_offset + max_run_step(data@, bin_size as int, bit_offset as int, 0),
{
    count_max_consecutive_bits(data, bin_size, bit_offset, 0)
}

/// The longest run of one bits in a window of `bin_size` bits from
/// `bit_offset`, as `(length, start)`.
pub fn count_max_consecutive_ones(data: &[u8], bin_size: usize, bit_offset: usize) -> (r: (
    usize,
    usize,
))
    requires
        bit_offset < 8 * data@.len(),
        bit_offset + bin_size <= usize::MAX,
    ensures
        r.0 == max_run_len(data@, bin_size as int, bit_offset as int, 1),
        r.1 == bit_offset + max_run_step(data@, bin_size as int, bit_offset as int, 1),
{
    count_max_consecutive_bits(data, bin_size, bit_offset, 1)
}

} // verus!
