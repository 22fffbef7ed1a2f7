use binvec::error::IndexOutOfBounds;
use binvec::{Binvec, BinvecIter};

#[test]
fn new_sets_every_bit_to_initial_value() {
    for length in [0usize, 1, 7, 8, 9, 12, 16, 17, 100] {
        for initial in [false, true] {
            let b = Binvec::new(length, initial);
            assert_eq!(b.len(), length);
            for i in 0..length {
                assert_eq!(b.get(i), Ok(initial));
            }
        }
    }
}

#[test]
fn out_of_range_index_is_rejected_without_change() {
    let mut b = Binvec::new(12, false);
    b.set(2, true).unwrap();
    let before = b.clone();
    assert_eq!(b.get(12), Err(IndexOutOfBounds));
    assert_eq!(b.get(usize::MAX), Err(IndexOutOfBounds));
    assert_eq!(b.set(12, true), Err(IndexOutOfBounds));
    assert_eq!(b.set(40, false), Err(IndexOutOfBounds));
    assert!(b == before);
    assert_eq!(b.to_vec(), before.to_vec());
}

#[test]
fn set_then_get_round_trip() {
    let mut b = Binvec::new(20, false);
    assert_eq!(b.set(9, true), Ok(()));
    assert_eq!(b.get(9), Ok(true));
    for i in 0..20 {
        if i != 9 {
            assert_eq!(b.get(i), Ok(false));
        }
    }
    assert_eq!(b.set(9, false), Ok(()));
    assert_eq!(b.get(9), Ok(false));
    assert!(b.is_all_zero());
}

#[test]
fn unchecked_access_matches_checked() {
    let mut b = Binvec::new(12, true);
    assert!(b.get_unchecked(5));
    b.set_unchecked(5, false);
    assert!(!b.get_unchecked(5));
    assert_eq!(b.get(5), Ok(false));
    assert_eq!(b.count_zeros(), 1);
}

#[test]
fn fill_then_all_one_or_all_zero() {
    let mut b = Binvec::new(13, false);
    b.fill(true);
    assert!(b.is_all_one());
    assert!(!b.is_all_zero());
    assert_eq!(b.count_ones(), 13);
    b.fill(false);
    assert!(b.is_all_zero());
    assert!(!b.is_all_one());
    assert_eq!(b.count_zeros(), 13);
}

#[test]
fn empty_container_is_all_one_and_all_zero() {
    let mut b = Binvec::new(0, true);
    assert!(b.is_all_one());
    assert!(b.is_all_zero());
    b.fill(false);
    assert!(b.is_all_one());
    assert!(b.is_all_zero());
}

#[test]
fn ones_plus_zeros_is_length() {
    let mut b = Binvec::new(21, false);
    for i in [0usize, 3, 7, 8, 15, 20] {
        b.set(i, true).unwrap();
    }
    assert_eq!(b.count_ones(), 6);
    assert_eq!(b.count_zeros(), 15);
    assert_eq!(b.count_ones() + b.count_zeros(), b.len());
}

#[test]
fn iteration_yields_bits_in_index_order() {
    let mut b = Binvec::new(10, false);
    b.set(1, true).unwrap();
    b.set(8, true).unwrap();
    let mut it = b.iter();
    for i in 0..10 {
        assert_eq!(it.next(), Some(b.get(i).unwrap()));
    }
    assert_eq!(it.next(), None);
    assert_eq!(it.next(), None);
    assert_eq!(
        b.to_vec(),
        vec![false, true, false, false, false, false, false, false, true, false]
    );
}

#[test]
fn iterator_new_starts_at_first_bit() {
    let b = Binvec::new(12, true);
    let mut it = BinvecIter::new(&b);
    assert_eq!(it.next(), Some(true));
}

#[test]
fn scenario_length_twelve_initially_false() {
    let mut b = Binvec::new(12, false);
    assert_eq!(b.count_ones(), 0);
    assert_eq!(b.count_zeros(), 12);
    b.set(3, true).unwrap();
    assert_eq!(b.count_ones(), 1);
    assert_eq!(b.get(3), Ok(true));
    assert_eq!(b.get(5), Ok(false));
}

#[test]
fn scenario_length_ten_initially_true() {
    let b = Binvec::new(10, true);
    assert_eq!(b.byte_len(), 2);
    assert_eq!(b.count_ones(), 10);
    assert_eq!(b.count_zeros(), 0);
    assert!(b.is_all_one());
}

#[test]
fn scenario_three_bits_render() {
    let mut b = Binvec::new(3, false);
    b.set(0, true).unwrap();
    b.set(1, false).unwrap();
    b.set(2, true).unwrap();
    assert_eq!(b.to_string(), "[1, 0, 1]");
}

#[test]
fn scenario_empty_container() {
    let b = Binvec::new(0, false);
    assert_eq!(b.len(), 0);
    assert_eq!(b.byte_len(), 0);
    assert_eq!(b.get(0), Err(IndexOutOfBounds));
    assert_eq!(b.to_string(), "[]");
    let mut it = b.iter();
    assert_eq!(it.next(), None);
    assert!(b.to_vec().is_empty());
}

#[test]
fn same_length_and_sets_compare_equal() {
    let mut a = Binvec::new(12, false);
    let mut b = Binvec::new(12, false);
    for i in [1usize, 4, 11] {
        a.set(i, true).unwrap();
        b.set(i, true).unwrap();
    }
    assert!(a == b);
    b.set(4, false).unwrap();
    assert!(a != b);
}

#[test]
fn different_lengths_never_equal() {
    let a = Binvec::new(9, false);
    let b = Binvec::new(10, false);
    assert!(a != b);
    let c = Binvec::new(8, true);
    let d = Binvec::new(7, true);
    assert!(c != d);
}

#[test]
fn equality_ignores_how_bits_were_written() {
    let mut a = Binvec::new(11, true);
    a.fill(false);
    a.set(10, true).unwrap();
    let mut b = Binvec::new(11, false);
    b.set(10, true).unwrap();
    assert!(a == b);
}

#[test]
fn byte_count_is_ceiling_of_length_over_eight() {
    for (length, bytes) in [(0usize, 0usize), (1, 1), (8, 1), (9, 2), (16, 2), (17, 3)] {
        assert_eq!(Binvec::new(length, true).byte_len(), bytes);
    }
}

#[test]
fn full_bytes_count_every_bit() {
    let mut b = Binvec::new(16, true);
    assert_eq!(b.count_ones(), 16);
    assert_eq!(b.count_zeros(), 0);
    b.set(15, false).unwrap();
    assert_eq!(b.count_ones(), 15);
    assert_eq!(b.count_zeros(), 1);
}

#[test]
fn padding_not_counted_as_zeros() {
    let b = Binvec::new(12, true);
    assert_eq!(b.count_zeros(), 0);
    let c = Binvec::new(12, false);
    assert_eq!(c.count_zeros(), 12);
    assert_eq!(c.count_ones(), 0);
}

#[test]
fn render_longer_container() {
    let mut b = Binvec::new(9, false);
    b.set(8, true).unwrap();
    assert_eq!(b.to_string(), "[0, 0, 0, 0, 0, 0, 0, 0, 1]");
    let one = Binvec::new(1, true);
    assert_eq!(one.to_string(), "[1]");
}

#[test]
fn error_description() {
    assert_eq!(IndexOutOfBounds.to_string(), "index out of bounds");
}
