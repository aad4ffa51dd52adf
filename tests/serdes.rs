use rand::rngs::SmallRng;
use rand::Rng;
use rand::SeedableRng;
use sux_core::bits::BitVector;
use sux_core::compact_array::CompactArray;
use sux_core::elias_fano::{EliasFano, EliasFanoBuilder, EliasFanoError};
use sux_core::rank9::Rank9;
use sux_core::select::{Select9, SelectAdapt};

#[test]
fn test_serdes() {
    let u = 10_000;
    let n = 1_000;
    let mut rng = SmallRng::seed_from_u64(0);

    let mut values = (0..n).map(|_| rng.gen_range(0..u)).collect::<Vec<_>>();

    values.sort();

    let mut efb = EliasFanoBuilder::new(u, n);
    for value in values.iter() {
        efb.push(*value).unwrap();
    }
    let ef = efb.build();

    for (idx, value) in values.iter().enumerate() {
        assert_eq!(ef.get(idx).unwrap(), *value);
    }

    let mut words = Vec::new();
    ef.serialize(&mut words);
    let (ef, next) = EliasFano::deserialize(&words, 0).unwrap();
    assert_eq!(next, words.len());

    for (idx, value) in values.iter().enumerate() {
        assert_eq!(ef.get(idx).unwrap(), *value);
    }
}

#[test]
fn test_epserde() {
    let mut rng = SmallRng::seed_from_u64(0);

    let mut v = CompactArray::new(4, 200);
    for i in 0..200 {
        v.set(i, rng.gen_range(0..(1 << 4))).unwrap();
    }

    let mut words = Vec::new();
    v.serialize(&mut words);
    let (w, next) = CompactArray::deserialize(&words, 0).unwrap();
    assert_eq!(next, words.len());

    for i in 0..200 {
        assert_eq!(v.get(i), w.get(i));
    }
}

#[test]
fn elias_fano_from_sorted() {
    let ef = EliasFano::from_sorted(50, &vec![1, 1, 7, 49]).unwrap();
    assert_eq!(ef.len(), 4);
    assert_eq!(ef.get(3), Some(49));
    assert_eq!(
        EliasFano::from_sorted(50, &vec![1, 50]).err(),
        Some(EliasFanoError::ValueTooLarge)
    );
    assert_eq!(
        EliasFano::from_sorted(50, &vec![3, 2]).err(),
        Some(EliasFanoError::NotMonotone)
    );
    assert_eq!(EliasFano::from_sorted(50, &vec![]).unwrap().len(), 0);
}

#[test]
fn elias_fano_deserialize_at_offset_and_rejects() {
    let ef = EliasFano::from_sorted(1000, &vec![5, 17, 17, 900]).unwrap();
    let mut words = vec![42u64, 43];
    ef.serialize(&mut words);
    let (back, next) = EliasFano::deserialize(&words, 2).unwrap();
    assert_eq!(next, words.len());
    for i in 0..4 {
        assert_eq!(back.get(i), ef.get(i));
    }
    assert!(EliasFano::deserialize(&words, 0).is_none());
    assert!(EliasFano::deserialize(&words[..words.len() - 1], 2).is_none());
    let mut bad = words.clone();
    bad[3] = 5;
    assert!(EliasFano::deserialize(&bad, 2).is_none());
}

#[test]
fn index_serialize_round_trip() {
    let mut rng = SmallRng::seed_from_u64(9);
    let b: Vec<bool> = (0..777).map(|_| rng.gen_bool(0.4)).collect();
    let bv = BitVector::from_bools(&b);

    let r = Rank9::new(BitVector::from_bools(&b));
    let mut words = Vec::new();
    r.serialize(&mut words);
    let (r2, _) = Rank9::deserialize(&words, 0).unwrap();
    for i in 0..=777 {
        assert_eq!(r.rank(i), r2.rank(i));
    }

    let s9 = Select9::new(Rank9::new(BitVector::from_bools(&b)));
    let mut w9 = Vec::new();
    s9.serialize(&mut w9);
    let (s9b, _) = Select9::deserialize(&w9, 0).unwrap();

    let sa = SelectAdapt::new(bv, 3);
    let mut wa = Vec::new();
    sa.serialize(&mut wa);
    let (sab, _) = SelectAdapt::deserialize(&wa, 0, 3).unwrap();

    assert_eq!(words, w9);
    assert_eq!(words, wa);
    for k in 0..=s9.count_ones() {
        assert_eq!(s9.select(k), s9b.select(k));
        assert_eq!(sa.select(k), sab.select(k));
    }
}
