use rucene::monotonic_block_packed::{CodecError, MonotonicBlockPackedReader, MonotonicBlockPackedWriter};

fn encode(values: &[i64], block_size: usize) -> MonotonicBlockPackedReader {
    let mut w = MonotonicBlockPackedWriter::new(block_size);
    for &v in values {
        assert_eq!(w.add(v), Ok(()));
    }
    assert_eq!(w.finish(), Ok(()));
    match w.into_reader() {
        Ok(r) => r,
        Err(_) => panic!("stream was finished"),
    }
}

fn round_trip(values: &[i64], block_size: usize) {
    let r = encode(values, block_size);
    assert_eq!(r.size(), values.len());
    for (i, &v) in values.iter().enumerate() {
        assert_eq!(r.get(i), v, "index {} block size {}", i, block_size);
    }
}

#[test]
fn round_trip_constant_sequence() {
    for bs in [1usize, 2, 3, 64] {
        round_trip(&[7; 10], bs);
    }
}

#[test]
fn round_trip_strictly_increasing_across_blocks() {
    let values: Vec<i64> = (0..200).map(|i| i * i + 3 * i).collect();
    for bs in [1usize, 2, 3, 7, 64, 128, 1024] {
        round_trip(&values, bs);
    }
}

#[test]
fn round_trip_irregular_steps() {
    let values = vec![0i64, 0, 0, 10, 10, 11, 500, 501, 502, 1 << 40, (1 << 40) + 1, i64::MAX];
    for bs in [1usize, 2, 4, 5, 12, 64] {
        round_trip(&values, bs);
    }
}

#[test]
fn round_trip_empty_stream() {
    let r = encode(&[], 4);
    assert_eq!(r.size(), 0);
    assert_eq!(r.num_blocks(), 0);
}

#[test]
fn arithmetic_sequence_has_zero_width_blocks() {
    let values: Vec<i64> = (0..100).map(|i| 5 + 3 * i).collect();
    for bs in [1usize, 3, 16, 64] {
        let r = encode(&values, bs);
        assert_eq!(r.num_blocks(), (100 + bs - 1) / bs);
        for b in 0..r.num_blocks() {
            assert_eq!(r.block_bits_per_value(b), 0);
        }
    }
}

#[test]
fn irregular_block_needs_residual_bits() {
    let r = encode(&[0, 0, 0, 10], 4);
    assert_eq!(r.num_blocks(), 1);
    assert!(r.block_bits_per_value(0) > 0);
    assert_eq!(r.get(3), 10);
}

#[test]
fn add_after_finish_is_refused() {
    let mut w = MonotonicBlockPackedWriter::new(4);
    assert_eq!(w.add(1), Ok(()));
    assert_eq!(w.finish(), Ok(()));
    assert_eq!(w.add(2), Err(CodecError::AlreadyFinished));
    assert_eq!(w.add(-5), Err(CodecError::AlreadyFinished));
    assert_eq!(w.add(i64::MIN), Err(CodecError::AlreadyFinished));
    assert_eq!(w.finish(), Err(CodecError::AlreadyFinished));
}

#[test]
fn reader_needs_finished_stream() {
    let mut w = MonotonicBlockPackedWriter::new(4);
    assert_eq!(w.add(1), Ok(()));
    assert!(matches!(w.into_reader(), Err(CodecError::NotFinished)));
}

#[test]
fn reset_starts_a_new_stream() {
    let mut w = MonotonicBlockPackedWriter::new(2);
    assert_eq!(w.add(100), Ok(()));
    assert_eq!(w.finish(), Ok(()));
    w.reset();
    assert_eq!(w.add(1), Ok(()));
    assert_eq!(w.add(2), Ok(()));
    assert_eq!(w.add(3), Ok(()));
    assert_eq!(w.finish(), Ok(()));
    let r = match w.into_reader() {
        Ok(r) => r,
        Err(_) => panic!("finished"),
    };
    assert_eq!(r.size(), 3);
    assert_eq!(r.get(0), 1);
    assert_eq!(r.get(2), 3);
}

#[test]
fn round_trip_negative_values() {
    let values = vec![i64::MIN, i64::MIN + 1, -1_000_000, -7, -7, 0, 3, 1 << 50];
    for bs in [1usize, 2, 3] {
        round_trip(&values, bs);
    }
    let small = vec![-100i64, -90, -90, -3, -1, 0, 0, 12];
    for bs in [1usize, 4, 8, 64] {
        round_trip(&small, bs);
    }
}

#[test]
fn arithmetic_negative_sequence_has_zero_width() {
    let values: Vec<i64> = (0..50).map(|i| -1000 + 7 * i).collect();
    let r = encode(&values, 16);
    assert_eq!(r.num_blocks(), 4);
    for b in 0..4 {
        assert_eq!(r.block_bits_per_value(b), 0);
    }
    assert_eq!(r.get(49), -1000 + 7 * 49);
}
