use rucene::bits::{Bits, FixedBits, LiveBits, MatchAllBits, MatchNoBits};
use std::sync::Arc;

#[test]
fn match_all_bits_are_set() {
    let b = MatchAllBits::new(5);
    assert_eq!(b.len(), 5);
    assert!(b.get(0));
    assert!(b.get(4));
    assert!(b.get(100));
    assert_eq!(b.id(), 1);
}

#[test]
fn match_no_bits_are_clear() {
    let b = MatchNoBits::new(3);
    assert_eq!(b.len(), 3);
    assert!(!b.get(0));
    assert!(!b.get(2));
    assert!(!b.get(50));
    assert_eq!(b.id(), 0);
}

#[test]
fn live_bits_read_least_significant_first() {
    let data = vec![0xffu8, 0b0000_0101, 0b1000_0000, 0xff];
    let lb = LiveBits::new(&data, 1, 10).unwrap();
    assert_eq!(lb.len(), 10);
    assert!(lb.get(0));
    assert!(!lb.get(1));
    assert!(lb.get(2));
    assert!(!lb.get(7));
    assert!(!lb.get(8));
    assert!(!lb.get(9));
}

#[test]
fn live_bits_out_of_range_slice() {
    let data = vec![0u8, 0u8];
    assert!(LiveBits::new(&data, 1, 9).is_none());
    assert!(LiveBits::new(&data, 3, 0).is_none());
    assert!(LiveBits::new(&data, 1, 8).is_some());
    assert!(LiveBits::new(&data, 2, 0).is_some());
}

#[test]
fn fixed_bits_words_and_cardinality() {
    assert_eq!(FixedBits::bits_2_words(0), 0);
    assert_eq!(FixedBits::bits_2_words(1), 1);
    assert_eq!(FixedBits::bits_2_words(64), 1);
    assert_eq!(FixedBits::bits_2_words(65), 2);
    let words = Arc::new(vec![0b1011i64, -1i64]);
    let fb = FixedBits::new(words, 70);
    assert_eq!(fb.length(), 70);
    assert_eq!(fb.len(), 70);
    assert_eq!(fb.cardinality(), 3 + 64);
    assert!(fb.get(0));
    assert!(fb.get(1));
    assert!(!fb.get(2));
    assert!(fb.get(3));
    assert!(fb.get(64));
    assert!(fb.get(69));
    assert_eq!(fb.id(), 0);
}

#[test]
fn bits_through_mutable_handle() {
    let mut all = MatchAllBits::new(2);
    assert!(rucene::bits::BitsMut::get(&mut all, 7));
    assert_eq!(rucene::bits::BitsMut::len(&all), 2);
    let mut none = MatchNoBits::new(2);
    assert!(!rucene::bits::BitsMut::get(&mut none, 1));
    let data = vec![0b10u8];
    let mut lb = LiveBits::new(&data, 0, 2).unwrap();
    assert!(rucene::bits::BitsMut::get(&mut lb, 1));
    assert!(!rucene::bits::BitsMut::get(&mut lb, 0));
}
