use binary_stuff::count_bits_internal;
use binary_stuff::count_leading_bits;
use binary_stuff::count_leading_ones;
use binary_stuff::count_leading_zeros;
use binary_stuff::count_max_consecutive_bits;
use binary_stuff::count_max_consecutive_bits_parallel;
use binary_stuff::count_max_consecutive_ones;
use binary_stuff::count_max_consecutive_zeros;
use binary_stuff::count_ones;
use binary_stuff::count_zeros;
use binary_stuff::get_max_data;
use binary_stuff::segment_bounds;
use binary_stuff::CountBit;
use binary_stuff::GetBitAt;

#[test]
fn count_max_consecutive_bits_works() {
    // max consec ones here   v
    let data = [0b01010101, 0b10101010, 0b01010101];
    // max consecutive zeros occurs here  ^
    let (max_zeros, at_zeros) = count_max_consecutive_bits(&data, data.len() * 8, 0, 0);
    let (max_ones, at_ones) = count_max_consecutive_bits(&data, data.len() * 8, 0, 1);
    assert_eq!(max_zeros, 2);
    assert_eq!(at_zeros, 15);
    assert_eq!(max_ones, 2);
    assert_eq!(at_ones, 7);

    let data = [0b11101111, 0b11111111];
    let (max_zeros, at_zeros) = count_max_consecutive_bits(&data, data.len() * 8, 0, 0);
    let (max_ones, at_ones) = count_max_consecutive_bits(&data, data.len() * 8, 0, 1);
    assert_eq!(max_zeros, 1);
    assert_eq!(at_zeros, 3);
    assert_eq!(max_ones, 12);
    assert_eq!(at_ones, 4);
}

#[test]
fn count_leading_zeros_works() {
    let data = [0b00000000, 0b00000000, 0b00000000];
    assert_eq!(24, count_leading_bits(&data, data.len() * 8, 0, 0));
    let data = [0b00000001, 0b00000000, 0b00000000];
    assert_eq!(7, count_leading_bits(&data, data.len() * 8, 0, 0));
    // test that the overflow works. this will count 8 bits in the last byte
    // because offset is 16, and then it overflows to first bit of first byte
    // counts that as 9, and then breaks because next is a 1.
    let data = [0b01000001, 0b00000000, 0b00000000];
    assert_eq!(9, count_leading_bits(&data, data.len() * 8, 16, 0));
}

#[test]
fn count_zeros_works() {
    let data = vec![0b00000000, 0b00000000, 0b00000000];
    assert_eq!(24, count_zeros(&data));
}

#[test]
fn bitwise_division_works() {
    let x = 16;
    assert_eq!(x >> 1, 8);
    assert_eq!(x >> 3, 2);
    let y: u8 = 128;
    assert_eq!(y >> 7, 1);

    assert_eq!(128 >> 3, 16);
    assert_eq!(129 >> 3, 16);
    assert_eq!(130 >> 3, 16);
    assert_eq!(131 >> 3, 16);
    assert_eq!(132 >> 3, 16);
    assert_eq!(133 >> 3, 16);
    assert_eq!(134 >> 3, 16);
    assert_eq!(135 >> 3, 16);
    assert_eq!(136 >> 3, 17);
}

#[test]
fn zeros_and_ones_account_for_every_bit() {
    let data = [0b01010101, 0b11111111, 0b00000000, 0b11001010];
    let zeros = count_zeros(&data) as usize;
    let ones = count_ones(&data) as usize;
    assert_eq!(zeros + ones, data.len() * 8);

    let data: [u8; 0] = [];
    assert_eq!(count_zeros(&data), 0);
    assert_eq!(count_ones(&data), 0);
}

#[test]
fn count_bits_internal_counts_each_value() {
    let data = [0b01010101, 0b11111111];
    assert_eq!(count_bits_internal(&data, 1), 12);
    assert_eq!(count_bits_internal(&data, 0), 4);
}

#[test]
fn count_leading_ones_and_zeros_delegate() {
    let data = [0b11111111, 0b00000000];
    assert_eq!(8, count_leading_ones(&data, data.len() * 8, 0));
    assert_eq!(8, count_leading_zeros(&data, data.len() * 8, 8));
}

#[test]
fn leading_run_can_fill_the_whole_window() {
    // every examined bit matches, including after several wraparounds
    let data = [0b00000000];
    assert_eq!(20, count_leading_bits(&data, 20, 3, 0));
}

#[test]
fn max_run_tie_break_keeps_the_first() {
    // two runs of ones of length 2, at bit 0 and at bit 4
    let data = [0b11001100, 0b00000000];
    let (len, at) = count_max_consecutive_bits(&data, data.len() * 8, 0, 1);
    assert_eq!(len, 2);
    assert_eq!(at, 0);

    // two runs of zeros of length 3: at bit 2 and at bit 10
    let data = [0b11000101, 0b11000111];
    let (len, at) = count_max_consecutive_bits(&data, data.len() * 8, 0, 0);
    assert_eq!(len, 3);
    assert_eq!(at, 2);
}

#[test]
fn max_run_zero_window_reports_the_offset() {
    let data = [0b10101010];
    assert_eq!((0, 5), count_max_consecutive_bits(&data, 0, 5, 1));
}

#[test]
fn max_run_delegates_match_the_general_scanner() {
    let data = [0b11101111, 0b11111111];
    assert_eq!((1, 3), count_max_consecutive_zeros(&data, data.len() * 8, 0));
    assert_eq!((12, 4), count_max_consecutive_ones(&data, data.len() * 8, 0));
}

#[test]
fn segment_bounds_partition_the_bit_range() {
    // 10 bytes in 3 segments: 3 + 3 + 4 bytes
    let segs = segment_bounds(10, 3);
    assert_eq!(segs, vec![(0, 24), (24, 24), (48, 32)]);

    // one segment takes everything
    assert_eq!(segment_bounds(5, 1), vec![(0, 40)]);

    // one segment per byte
    let segs = segment_bounds(3, 3);
    assert_eq!(segs, vec![(0, 8), (8, 8), (16, 8)]);

    // the covered ranges are contiguous from 0 to the bit length
    let segs = segment_bounds(45, 16);
    let mut next_start = 0;
    for (start, len) in &segs {
        assert_eq!(*start, next_start);
        assert!(*len > 0);
        next_start = start + len;
    }
    assert_eq!(next_start, 45 * 8);
}

#[test]
fn segmented_scan_can_undercount_a_straddling_run() {
    // 32 bytes in 16 segments of 2 bytes; the only run of two ones
    // straddles the boundary between the first two segments, at bits
    // 15 and 16.
    let mut data = [0u8; 32];
    data[1] = 0b00000001;
    data[2] = 0b10000000;
    let (direct_len, direct_at) = count_max_consecutive_bits(&data, data.len() * 8, 0, 1);
    assert_eq!(direct_len, 2);
    assert_eq!(direct_at, 15);
    let (seg_len, seg_at) = get_max_data(&data, CountBit::CountBitOnes);
    assert!(seg_len < direct_len);
    assert_eq!((seg_len, seg_at), (1, 15));
}

#[test]
fn parallel_scan_reduces_per_segment_maxima() {
    // 2 bytes in 2 segments: the first segment's best run of ones has
    // length 4, the second's has length 8, so the reduction keeps the
    // second; a direct scan would see 12.
    let data = [0b11101111, 0b11111111];
    assert_eq!((8, 8), count_max_consecutive_bits_parallel(&data, 2, 1));
    assert_eq!((12, 4), count_max_consecutive_bits(&data, data.len() * 8, 0, 1));

    // a small buffer gets one segment per byte and an exact partition;
    // the all-ones byte wins even though a direct scan would see 12
    let data = [0b00000000, 0b11111111, 0b11110000];
    assert_eq!((8, 8), get_max_data(&data, CountBit::CountBitOnes));
    assert_eq!((8, 0), get_max_data(&data, CountBit::CountBitZeros));
}

#[test]
fn count_bit_maps_free_form_labels() {
    assert_eq!(CountBit::from("1").target_bit(), 1);
    assert_eq!(CountBit::from("one").target_bit(), 1);
    assert_eq!(CountBit::from("ones").target_bit(), 1);
    assert_eq!(CountBit::from("0").target_bit(), 0);
    assert_eq!(CountBit::from("zero").target_bit(), 0);
    assert_eq!(CountBit::from("zeros").target_bit(), 0);
    assert_eq!(CountBit::from("").target_bit(), 0);
    assert_eq!(CountBit::from("anything else").target_bit(), 0);
    assert_eq!(CountBit::from("on").target_bit(), 0);
    assert_eq!(CountBit::from("onesy").target_bit(), 0);
}

#[test]
fn count_bit_labels_print_as_expected() {
    assert_eq!(CountBit::CountBitZeros.to_string(), "zeros");
    assert_eq!(CountBit::CountBitOnes.to_string(), "ones");
}

#[test]
fn get_bit_at_addresses_bits_msb_first() {
    let data = [0b01000001, 0b10000000];
    let slice: &[u8] = &data;
    assert_eq!(slice.get_bit_at(0), 0);
    assert_eq!(slice.get_bit_at(1), 1);
    assert_eq!(slice.get_bit_at(7), 1);
    assert_eq!(slice.get_bit_at(8), 1);
    assert_eq!(slice.get_bit_at(9), 0);
    assert_eq!(slice.get_byte_at(9), (0b10000000, 1));
    assert_eq!(slice.get_byte_at(3), (0b01000001, 0));
}
