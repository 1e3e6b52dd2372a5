//! Counting how many bits of a buffer equal a target bit value.

use vstd::arithmetic::div_mod::lemma_fundamental_div_mod_converse;
use vstd::prelude::*;

use crate::model::{bit_at, bit_len, count_bits_upto};

verus! {

const BITS_IN_BYTE: usize = 8;

/// Counts the bits of the whole buffer whose value equals `zero_or_one`,
/// walking every byte and, inside each byte, every one of its 8 bit
/// positions, most significant first. The byte is read once and kept for
/// the 8 inner steps.
pub fn count_bits_internal(data: &[u8], zero_or_one: u8) -> (r: u32)
    requires
        zero_or_one == 0 || zero_or_one == 1,
        8 * data@.len() <= u32::MAX,
    ensures
        r == count_bits_upto(data@, zero_or_one, bit_len(data@)),
{
    let mut num_bits: u32 = 0;
    let data_size = data.len();
    let mut i: usize = 0;
    while i < data_size
        invariant
            i <= data_size,
            data_size == data@.len(),
            8 * data@.len() <= u32::MAX,
            num_bits == count_bits_upto(data@, zero_or_one, 8 * i),
            num_bits <= 8 * i,
        decreases data_size - i,
    {
        let byte = data[i];
        let mut j: usize = 0;
        while j < BITS_IN_BYTE
            invariant
                j <= 8,
                i < data_size,
                data_size == data@.len(),
                8 * data@.len() <= u32::MAX,
                byte == data@[i as int],
                num_bits == count_bits_upto(data@, zero_or_one, 8 * i + j),
                num_bits <= 8 * i + j,
            decreases 8 - j,
        {
            let sh: u8 = (7 - j) as u8;
            let mask: u8 = 1u8 << sh;
            let val = byte & mask;
            let bit: u8 = if val == 0 {
                0
            } else {
                1
            };
            proof {
                lemma_fundamental_div_mod_converse((8 * i + j) as int, 8, i as int, j as int);
                assert(bit == bit_at(data@, 8 * i + j));
            }
            if bit == zero_or_one {
                num_bits = num_bits + 1;
            }
            j = j + 1;
        }
        i = i + 1;
    }
    num_bits
}

/// How many bits of the buffer are 0.
pub fn count_zeros(data: &[u8]) -> (r: u32)
    requires
        8 * data@.len() <= u32::MAX,
    ensures
        r == count_bits_upto(data@, 0, bit_len(data@)),
{
    count_bits_internal(data, 0)
}

/// How many bits of the buffer are 1.
pub fn count_ones(data: &[u8]) -> (r: u32)
    requires
        8 * data@.len() <= u32::MAX,
    ensures
        r == count_bits_upto(data@, 1, bit_len(data@)),
{
    count_bits_internal(data, 1)
}

} // verus!
