//! Random access to a single bit or byte of a buffer by its linear bit
//! index. The scanners avoid this per-bit lookup on their hot path and
//! cache the current byte instead; this trait is the plain way in when
//! one bit at an arbitrary position is wanted.

use vstd::arithmetic::div_mod::lemma_fundamental_div_mod;
use vstd::prelude::*;

use crate::model::bit_at;

verus! {

/// Bitwise random access into a sequence of bytes.
pub trait GetBitAt {
    /// The bytes the bits are read from.
    spec fn bytes(&self) -> Seq<u8>;

    /// The value, 0 or 1, of the bit at linear position `pos`,
    /// most-significant-bit-first within each byte.
    fn get_bit_at(&self, pos: usize) -> (r: u8)
        requires
            pos < 8 * self.bytes().len(),
        ensures
            r == bit_at(self.bytes(), pos as int),
    ;

    /// The byte holding bit `pos`, together with that byte's index.
    fn get_byte_at(&self, pos: usize) -> (r: (u8, usize))
        requires
            pos < 8 * self.bytes().len(),
        ensures
            r.1 == pos as int / 8,
            r.0 == self.bytes()[r.1 as int],
    ;
}

impl GetBitAt for [u8] {
    open spec fn bytes(&self) -> Seq<u8> {
        self@
    }

    // slow but necessary for random access
    fn get_bit_at(&self, pos: usize) -> (r: u8) {
        let (byte, byte_index) = self.get_byte_at(pos);
        proof {
            assert(byte_index << 3 == 8 * byte_index) by (bit_vector)
                requires
                    byte_index == pos / 8,
            ;
        }
        let bit_index_of_byte = byte_index << 3;  // multiply by 8
        let bit_offset = pos - bit_index_of_byte;
        let sh: u8 = (7 - bit_offset) as u8;
        let mask: u8 = 1u8 << sh;
        let val = byte & mask;
        if val > 0 {
            1
        } else {
            0
        }
    }

    fn get_byte_at(&self, pos: usize) -> (r: (u8, usize)) {
        proof {
            assert(pos >> 3 == pos / 8) by (bit_vector);
            lemma_fundamental_div_mod(pos as int, 8);
        }
        let byte_index = pos >> 3;  // divide by 8
        (self[byte_index], byte_index)
    }
}

} // verus!
