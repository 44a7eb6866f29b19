use rucene::bytes_order::bcompare;
use rucene::long_values::LongValues;
use rucene::monotonic_block_packed::MonotonicBlockPackedWriter;
use rucene::sorted_doc_values::{CompressedBinaryDocValues, TailoredSortedDocValues};

fn dict() -> Vec<Vec<u8>> {
    vec![b"apple".to_vec(), b"banana".to_vec(), b"cherry".to_vec(), b"date".to_vec()]
}

fn general() -> TailoredSortedDocValues {
    TailoredSortedDocValues::new(LongValues::Direct(vec![2, -1, 0, 3, 1]), dict(), 4)
}

fn compressed() -> TailoredSortedDocValues {
    let data = b"applebananacherrydate".to_vec();
    let ends = vec![5usize, 11, 17, 21];
    let c = CompressedBinaryDocValues::new(data, ends).unwrap();
    TailoredSortedDocValues::with_compression(LongValues::Direct(vec![2, -1, 0, 3, 1]), c, 4)
}

#[test]
fn bcompare_orders_lexicographically() {
    assert_eq!(bcompare(b"abc", b"abd"), -1);
    assert_eq!(bcompare(b"abc", b"abc"), 0);
    assert_eq!(bcompare(b"abcd", b"abc"), 1);
    assert_eq!(bcompare(b"", b"a"), -1);
    assert_eq!(bcompare(&[0xffu8], &[0x01u8]), 1);
}

#[test]
fn lookup_term_finds_present_keys() {
    for v in [general(), compressed()] {
        assert_eq!(v.lookup_term(b"apple"), 0);
        assert_eq!(v.lookup_term(b"banana"), 1);
        assert_eq!(v.lookup_term(b"cherry"), 2);
        assert_eq!(v.lookup_term(b"date"), 3);
    }
}

#[test]
fn lookup_term_encodes_insertion_point() {
    for v in [general(), compressed()] {
        assert_eq!(v.lookup_term(b"aardvark"), -1);
        assert_eq!(v.lookup_term(b"b"), -2);
        assert_eq!(v.lookup_term(b"bananas"), -3);
        assert_eq!(v.lookup_term(b"coconut"), -4);
        assert_eq!(v.lookup_term(b"zebra"), -5);
        let r = v.lookup_term(b"coconut");
        assert_eq!(-(r + 1), 3);
    }
}

#[test]
fn lookup_term_on_empty_dictionary() {
    let v = TailoredSortedDocValues::new(LongValues::Direct(vec![-1, -1]), Vec::new(), 0);
    assert_eq!(v.lookup_term(b"x"), -1);
    assert_eq!(v.get_value_count(), 0);
}

#[test]
fn ordinal_round_trip() {
    for v in [general(), compressed()] {
        for ord in 0..v.get_value_count() as i32 {
            let term = v.lookup_ord(ord);
            assert_eq!(v.lookup_term(&term), ord);
        }
    }
}

#[test]
fn get_composes_ordinal_and_dictionary() {
    for v in [general(), compressed()] {
        assert_eq!(v.get_ord(0), 2);
        assert_eq!(v.get_ord(1), -1);
        assert_eq!(v.get(0), b"cherry".to_vec());
        assert_eq!(v.get(1), Vec::<u8>::new());
        assert_eq!(v.get(4), b"banana".to_vec());
    }
}

#[test]
fn term_iterator_walks_in_ordinal_order() {
    assert_eq!(general().term_iterator(), dict());
    assert_eq!(compressed().term_iterator(), dict());
}

#[test]
fn compressed_rejects_bad_offsets() {
    assert!(CompressedBinaryDocValues::new(b"abc".to_vec(), vec![2, 1]).is_none());
    assert!(CompressedBinaryDocValues::new(b"abc".to_vec(), vec![4]).is_none());
    let c = CompressedBinaryDocValues::new(b"abc".to_vec(), vec![1, 3]).unwrap();
    assert_eq!(c.len(), 2);
    assert_eq!(c.get(1), b"bc".to_vec());
}

#[test]
fn ordinals_from_block_codec() {
    let mut w = MonotonicBlockPackedWriter::new(2);
    for ord in [0i64, 0, 1, 3, 3] {
        assert_eq!(w.add(ord), Ok(()));
    }
    assert_eq!(w.finish(), Ok(()));
    let ords = match w.into_reader() {
        Ok(r) => LongValues::Packed(r),
        Err(_) => panic!("finished"),
    };
    assert_eq!(ords.len(), 5);
    let v = TailoredSortedDocValues::new(ords, dict(), 4);
    assert_eq!(v.get_ord(3), 3);
    assert_eq!(v.get(0), b"apple".to_vec());
    assert_eq!(v.get(2), b"banana".to_vec());
    assert_eq!(v.get(4), b"date".to_vec());
}

fn first_and_search<S: rucene::sorted_doc_values::SortedDocValues>(v: &S, key: &[u8]) -> (Vec<u8>, i32, usize) {
    (v.lookup_ord(0), v.lookup_term(key), v.term_iterator().len())
}

#[test]
fn views_through_the_trait() {
    assert_eq!(first_and_search(&general(), b"cherry"), (b"apple".to_vec(), 2, 4));
    assert_eq!(first_and_search(&compressed(), b"blueberry"), (b"apple".to_vec(), -3, 4));
}

#[test]
fn compressed_storage_answers_lookups_itself() {
    let c = CompressedBinaryDocValues::new(b"applebananacherrydate".to_vec(), vec![5usize, 11, 17, 21]).unwrap();
    assert_eq!(c.lookup_term(b"banana"), 1);
    assert_eq!(c.lookup_term(b"a"), -1);
    assert_eq!(c.lookup_term(b"zzz"), -5);
    assert_eq!(c.term_iterator(), dict());
}
