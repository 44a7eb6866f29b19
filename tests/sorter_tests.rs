use rucene::multi_sorter::{CrossReaderComparatorEnum, MultiSorter, SortError};
use rucene::sort_field::{Sort, SortField, SortFieldType, SortedNumericSelector};
use rucene::sorter::{PackedLongDocMap, SegmentValues, Sorter, SorterDocMap};

fn long_field(reverse: bool, missing: Option<i64>) -> SortField {
    SortField::new(SortFieldType::Long, reverse, missing)
}

fn segment(values: Vec<Option<i64>>, live: Vec<bool>) -> SegmentValues {
    SegmentValues { values: vec![values], live_docs: live }
}

fn all_live(values: &[i64]) -> SegmentValues {
    segment(values.iter().map(|&v| Some(v)).collect(), vec![true; values.len()])
}

fn new_order(m: &PackedLongDocMap) -> Vec<i32> {
    (0..m.len() as i32).map(|i| m.new_to_old(i)).collect()
}

fn check_inverse(m: &PackedLongDocMap) {
    let n = m.len() as i32;
    let mut seen = vec![false; n as usize];
    for d in 0..n {
        let nd = m.old_to_new(d);
        assert_eq!(m.old_to_new(m.new_to_old(nd)), nd);
        let o = m.new_to_old(d);
        assert!(!seen[o as usize]);
        seen[o as usize] = true;
    }
    assert!(Sorter::is_consistent(m));
}

#[test]
fn already_sorted_segment_needs_no_permutation() {
    let sorter = Sorter::new(Sort::new(vec![long_field(false, None)]));
    assert!(sorter.sort_leaf_reader(&all_live(&[1, 2, 2, 5, 9])).is_none());
    assert!(sorter.sort_leaf_reader(&all_live(&[])).is_none());
}

#[test]
fn unsorted_segment_gets_inverse_maps() {
    let sorter = Sorter::new(Sort::new(vec![long_field(false, None)]));
    let m = sorter.sort_leaf_reader(&all_live(&[30, 10, 20, 10])).unwrap();
    assert_eq!(m.len(), 4);
    assert_eq!(new_order(&m), vec![1, 3, 2, 0]);
    assert_eq!(m.old_to_new(0), 3);
    assert_eq!(m.old_to_new(1), 0);
    check_inverse(&m);
}

#[test]
fn reverse_field_sorts_descending() {
    let sorter = Sorter::new(Sort::new(vec![long_field(true, None)]));
    let m = sorter.sort_leaf_reader(&all_live(&[1, 3, 2])).unwrap();
    assert_eq!(new_order(&m), vec![1, 2, 0]);
    check_inverse(&m);
    assert!(sorter.sort_leaf_reader(&all_live(&[3, 2, 2, 1])).is_none());
}

#[test]
fn missing_value_changes_single_segment_order() {
    let seg = segment(vec![Some(5), None, Some(1)], vec![true; 3]);
    let low = Sorter::new(Sort::new(vec![long_field(false, Some(0))]));
    assert_eq!(new_order(&low.sort_leaf_reader(&seg).unwrap()), vec![1, 2, 0]);
    let high = Sorter::new(Sort::new(vec![long_field(false, Some(100))]));
    assert_eq!(new_order(&high.sort_leaf_reader(&seg).unwrap()), vec![2, 0, 1]);
    let high_desc = Sorter::new(Sort::new(vec![long_field(true, Some(100))]));
    assert_eq!(new_order(&high_desc.sort_leaf_reader(&seg).unwrap()), vec![1, 0, 2]);
}

#[test]
fn second_field_breaks_ties() {
    let seg = SegmentValues {
        values: vec![vec![Some(1), Some(0), Some(1)], vec![Some(9), Some(9), Some(3)]],
        live_docs: vec![true; 3],
    };
    let sorter = Sorter::new(Sort::new(vec![long_field(false, None), long_field(false, None)]));
    assert_eq!(new_order(&sorter.sort_leaf_reader(&seg).unwrap()), vec![1, 2, 0]);
}

#[test]
fn double_field_orders_by_numeric_value() {
    let vals = [2.5f64, -1.0, 0.0, -0.0, f64::INFINITY, -3.25];
    let seg = segment(vals.iter().map(|v| Some(v.to_bits() as i64)).collect(), vec![true; 6]);
    let sorter = Sorter::new(Sort::new(vec![SortField::new(SortFieldType::Double, false, None)]));
    let m = sorter.sort_leaf_reader(&seg).unwrap();
    assert_eq!(new_order(&m), vec![5, 1, 2, 3, 0, 4]);
    check_inverse(&m);
}

fn merge_segments() -> Vec<SegmentValues> {
    vec![all_live(&[1, 5, 9]), all_live(&[2, 2, 8]), all_live(&[0, 6])]
}

#[test]
fn merge_interleaves_sorted_segments() {
    let sort = Sort::new(vec![long_field(false, None)]);
    let maps = MultiSorter::sort(&sort, &merge_segments()).unwrap();
    assert_eq!(maps, vec![vec![1, 4, 7], vec![2, 3, 6], vec![0, 5]]);
    for m in &maps {
        for w in m.windows(2) {
            assert!(w[0] < w[1]);
        }
    }
}

#[test]
fn merge_of_ordered_segments_is_empty() {
    let sort = Sort::new(vec![long_field(false, None)]);
    let segs = vec![all_live(&[1, 2]), all_live(&[2, 3]), all_live(&[7])];
    assert_eq!(MultiSorter::sort(&sort, &segs), Ok(Vec::new()));
}

#[test]
fn merge_gives_deleted_docs_the_next_slot() {
    let sort = Sort::new(vec![long_field(false, None)]);
    let segs = vec![
        segment(vec![Some(1), Some(3), Some(5)], vec![true, false, true]),
        all_live(&[2, 4]),
    ];
    let maps = MultiSorter::sort(&sort, &segs).unwrap();
    assert_eq!(maps, vec![vec![0, 2, 3], vec![1, 2]]);
}

#[test]
fn merge_missing_value_substitution() {
    let segs = vec![segment(vec![None, Some(4)], vec![true; 2]), all_live(&[2])];
    let low = Sort::new(vec![long_field(false, Some(0))]);
    assert_eq!(MultiSorter::sort(&low, &segs).unwrap(), vec![vec![0, 2], vec![1]]);
    let high = Sort::new(vec![long_field(false, Some(3))]);
    assert_eq!(MultiSorter::sort(&high, &segs).unwrap(), vec![vec![1, 2], vec![0]]);
}

#[test]
fn merge_descending_and_doubles() {
    let desc = Sort::new(vec![long_field(true, None)]);
    let segs = vec![all_live(&[9, 5, 1]), all_live(&[8, 2, 2]), all_live(&[6, 0])];
    assert_eq!(
        MultiSorter::sort(&desc, &segs).unwrap(),
        vec![vec![0, 3, 6], vec![1, 4, 5], vec![2, 7]]
    );
    let dbl = Sort::new(vec![SortField::new(SortFieldType::Float, false, None)]);
    let bits = |v: f64| Some(v.to_bits() as i64);
    let segs = vec![
        segment(vec![bits(-2.0), bits(1.5)], vec![true; 2]),
        segment(vec![bits(-3.0), bits(0.5)], vec![true; 2]),
    ];
    assert_eq!(MultiSorter::sort(&dbl, &segs).unwrap(), vec![vec![1, 3], vec![0, 2]]);
}

#[test]
fn merge_rejects_string_field() {
    let sort = Sort::new(vec![SortField::new(SortFieldType::String, false, None)]);
    assert_eq!(
        MultiSorter::sort(&sort, &merge_segments()),
        Err(SortError::UnhandledType(SortFieldType::String))
    );
    let sort = Sort::new(vec![long_field(false, None), SortField::new(SortFieldType::Score, false, None)]);
    assert_eq!(
        MultiSorter::sort(&sort, &merge_segments()),
        Err(SortError::UnhandledType(SortFieldType::Score))
    );
}

#[test]
fn comparator_defaults_missing_to_zero() {
    assert!(MultiSorter::get_comparator(&SortField::new(SortFieldType::Int, false, None)).is_ok());
    assert!(MultiSorter::get_comparator(&SortField::new(SortFieldType::Doc, false, None)).is_err());
    let segs = vec![segment(vec![Some(-1), None, Some(1)], vec![true; 3]), all_live(&[0])];
    let sort = Sort::new(vec![SortField::new(SortFieldType::Int, false, None)]);
    assert_eq!(MultiSorter::sort(&sort, &segs).unwrap(), vec![vec![0, 1, 3], vec![2]]);
}

#[test]
fn sorted_numeric_selector_picks_min_or_max() {
    let docs = vec![vec![1i64, 4, 9], vec![], vec![-3]];
    assert_eq!(
        Sorter::get_or_wrap_numeric(&docs, SortedNumericSelector::Min),
        vec![Some(1), None, Some(-3)]
    );
    assert_eq!(
        Sorter::get_or_wrap_numeric(&docs, SortedNumericSelector::Max),
        vec![Some(9), None, Some(-3)]
    );
}

#[test]
fn merge_maps_are_monotone_within_segments() {
    let sort = Sort::new(vec![long_field(false, None)]);
    let segs = vec![
        segment(vec![Some(1), Some(1), Some(4), Some(8)], vec![true, false, false, true]),
        all_live(&[0, 1, 4, 4, 9]),
        all_live(&[3]),
    ];
    let maps = MultiSorter::sort(&sort, &segs).unwrap();
    assert_eq!(maps, vec![vec![1, 2, 4, 6], vec![0, 2, 4, 5, 7], vec![3]]);
    for m in &maps {
        for w in m.windows(2) {
            assert!(w[0] <= w[1]);
        }
    }
}

#[test]
fn large_segment_sort_is_ordered_permutation() {
    let mut x: u64 = 12345;
    let mut vals = Vec::new();
    for _ in 0..1000 {
        x = x.wrapping_mul(6364136223846793005).wrapping_add(1442695040888963407);
        vals.push(((x >> 33) % 50) as i64);
    }
    let sorter = Sorter::new(Sort::new(vec![long_field(false, None)]));
    let m = sorter.sort_leaf_reader(&all_live(&vals)).unwrap();
    check_inverse(&m);
    let order = new_order(&m);
    for w in order.windows(2) {
        let (a, b) = (w[0] as usize, w[1] as usize);
        assert!(vals[a] < vals[b] || (vals[a] == vals[b] && a < b));
    }
}

#[test]
fn comparator_keeps_configured_missing_value() {
    let neg_zero = (-0.0f64).to_bits() as i64;
    match MultiSorter::get_comparator(&SortField::new(SortFieldType::Double, true, Some(neg_zero))) {
        Ok(CrossReaderComparatorEnum::Double(d)) => {
            assert_eq!(d.missing_value, neg_zero);
            assert!(d.reverse);
        }
        _ => panic!("double comparator expected"),
    }
    match MultiSorter::get_comparator(&SortField::new(SortFieldType::Int, false, None)) {
        Ok(CrossReaderComparatorEnum::Long(l)) => {
            assert_eq!(l.missing_value, 0);
            assert!(!l.reverse);
        }
        _ => panic!("long comparator expected"),
    }
}
