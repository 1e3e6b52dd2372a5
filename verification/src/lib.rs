//! Bit-level analysis of byte buffers: counting bits, measuring runs of
//! identical bits with wraparound, and a segmented (parallel) maximal-run
//! search.
//!
//! Bits are addressed most-significant-first within each byte: bit 0 of a
//! byte is its highest-order bit, bit 7 its lowest-order bit. A buffer of
//! `n` bytes has `8 * n` addressable bits.

pub mod addressing;
pub mod counting;
pub mod model;
pub mod runs;
pub mod segmented;

pub use addressing::GetBitAt;
pub use counting::count_bits_internal;
pub use counting::count_ones;
pub use counting::count_zeros;
pub use runs::count_leading_bits;
pub use runs::count_leading_ones;
pub use runs::count_leading_zeros;
pub use runs::count_max_consecutive_bits;
pub use runs::count_max_consecutive_ones;
pub use runs::count_max_consecutive_zeros;
pub use segmented::count_max_consecutive_bits_parallel;
pub use segmented::get_max_data;
pub use segmented::segment_bounds;
pub use segmented::CountBit;
