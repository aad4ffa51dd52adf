use rand::rngs::SmallRng;
use rand::Rng;
use rand::SeedableRng;
use sux_core::compact_array::{CompactArray, ValueTooWide};
use sux_core::elias_fano::{EliasFanoBuilder, EliasFanoError};

#[test]
fn elias_fano_random_sorted_values() {
    let u = 10_000u64;
    let n = 1_000usize;
    let mut rng = SmallRng::seed_from_u64(0);
    let mut values = (0..n).map(|_| rng.gen_range(0..u)).collect::<Vec<_>>();
    values.sort();
    let mut efb = EliasFanoBuilder::new(u, n);
    for value in values.iter() {
        efb.push(*value).unwrap();
    }
    let ef = efb.build();
    assert_eq!(ef.len(), n);
    for (idx, value) in values.iter().enumerate() {
        assert_eq!(ef.get(idx).unwrap(), *value);
    }
    assert_eq!(ef.get(n), None);
}

#[test]
fn elias_fano_push_errors() {
    let mut efb = EliasFanoBuilder::new(100, 3);
    assert_eq!(efb.push(100), Err(EliasFanoError::ValueTooLarge));
    assert_eq!(efb.push(10), Ok(()));
    assert_eq!(efb.push(9), Err(EliasFanoError::NotMonotone));
    assert_eq!(efb.push(10), Ok(()));
    assert_eq!(efb.push(99), Ok(()));
    assert_eq!(efb.push(99), Err(EliasFanoError::TooManyValues));
    assert_eq!(efb.len(), 3);
    let ef = efb.build();
    assert_eq!(ef.get(0), Some(10));
    assert_eq!(ef.get(1), Some(10));
    assert_eq!(ef.get(2), Some(99));
}

#[test]
fn elias_fano_edge_cases() {
    let ef = EliasFanoBuilder::new(0, 0).build();
    assert_eq!(ef.len(), 0);
    assert_eq!(ef.get(0), None);
    let mut efb = EliasFanoBuilder::new(1 << 40, 4);
    for v in [0u64, 0, (1 << 40) - 1, (1 << 40) - 1] {
        efb.push(v).unwrap();
    }
    let ef = efb.build();
    assert_eq!(ef.get_unchecked(2), (1 << 40) - 1);
    assert_eq!(ef.get_unchecked(1), 0);
}

#[test]
fn compact_array_set_get() {
    let mut rng = SmallRng::seed_from_u64(0);
    let mut v = CompactArray::new(4, 200);
    let mut expected = vec![0u64; 200];
    for i in 0..200 {
        let x = rng.gen_range(0..(1 << 4));
        v.set(i, x).unwrap();
        expected[i] = x;
    }
    for i in 0..200 {
        assert_eq!(v.get(i), expected[i]);
    }
    assert_eq!(v.set(3, 16), Err(ValueTooWide));
    assert_eq!(v.get(3), expected[3]);
}

#[test]
fn compact_array_widths() {
    let mut w0 = CompactArray::new(0, 5);
    assert_eq!(w0.set(1, 0), Ok(()));
    assert_eq!(w0.set(1, 1), Err(ValueTooWide));
    let mut w64 = CompactArray::new(64, 3);
    w64.set(1, u64::MAX).unwrap();
    assert_eq!(w64.get(1), u64::MAX);
    assert_eq!(w64.get(0), 0);
    let mut w7 = CompactArray::new(7, 20);
    w7.set(9, 127).unwrap();
    w7.set(10, 1).unwrap();
    assert_eq!(w7.get(9), 127);
    assert_eq!(w7.get(10), 1);
    assert_eq!(w7.get(8), 0);
    assert_eq!(w7.bit_width(), 7);
    assert_eq!(w7.len(), 20);
}

#[test]
fn elias_fano_mem_upperbound_values() {
    assert_eq!(EliasFanoBuilder::mem_upperbound(10_000, 1_000), 6_000);
    assert_eq!(EliasFanoBuilder::mem_upperbound(1024, 1), 12);
    assert_eq!(EliasFanoBuilder::mem_upperbound(1000, 1000), 2000);
    assert_eq!(EliasFanoBuilder::mem_upperbound(5, 0), 0);
}
