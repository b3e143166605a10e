use elias_fano::bits::{bit_count, most_significant_bit, next_set_bit, read_range, set_range};
use fixedbitset::FixedBitSet;

#[test]
fn msb_values() {
    assert_eq!(most_significant_bit(1), 0);
    assert_eq!(most_significant_bit(2), 1);
    assert_eq!(most_significant_bit(200), 7);
    assert_eq!(most_significant_bit(1 << 40), 40);
    assert_eq!(most_significant_bit(u64::MAX), 63);
}

#[test]
fn range_write_then_read() {
    let mut b = FixedBitSet::with_capacity(40);
    set_range(&mut b, 3, 0b1011, 4);
    assert!(b.contains(4));
    assert!(!b.contains(5));
    assert!(b.contains(6));
    assert!(b.contains(7));
    assert!(!b.contains(3));
    assert!(!b.contains(8));
    assert_eq!(read_range(&b, 3, 4), 0b1011);
    set_range(&mut b, 10, 104, 7);
    assert_eq!(read_range(&b, 10, 7), 104);
    assert_eq!(read_range(&b, 3, 4), 0b1011);
}

#[test]
fn range_read_past_end_is_zero() {
    let mut b = FixedBitSet::with_capacity(5);
    set_range(&mut b, 0, 0b1111, 4);
    assert_eq!(read_range(&b, 2, 6), 0b110000);
}

#[test]
fn next_set_scan() {
    let mut b = FixedBitSet::with_capacity(20);
    b.set(3, true);
    b.set(11, true);
    assert_eq!(next_set_bit(&b, 0), 3);
    assert_eq!(next_set_bit(&b, 3), 3);
    assert_eq!(next_set_bit(&b, 4), 11);
    assert_eq!(next_set_bit(&b, 12), 20);
    assert_eq!(next_set_bit(&b, 25), 20);
}

#[test]
fn bit_count_is_set_length() {
    let b = FixedBitSet::with_capacity(37);
    assert_eq!(bit_count(&b), 37);
}
