use rand::rngs::SmallRng;
use rand::Rng;
use rand::SeedableRng;
use sux_core::bits::BitVector;
use sux_core::rank9::Rank9;
use sux_core::select::{Select9, SelectAdapt};
use sux_core::{remap128, skewed_select_target};

fn random_bools(rng: &mut SmallRng, n: usize, density: f64) -> Vec<bool> {
    (0..n).map(|_| rng.gen_bool(density)).collect()
}

fn naive_rank(b: &[bool], i: usize) -> usize {
    b[..i].iter().filter(|x| **x).count()
}

fn naive_select(b: &[bool], k: usize) -> Option<usize> {
    b.iter()
        .enumerate()
        .filter(|(_, x)| **x)
        .nth(k)
        .map(|(p, _)| p)
}

#[test]
fn bit_vector_get_set_count() {
    let mut bv = BitVector::new(130);
    assert_eq!(bv.len(), 130);
    assert_eq!(bv.count_ones(), 0);
    bv.set(0, true);
    bv.set(64, true);
    bv.set(129, true);
    assert!(bv.get(0) && bv.get(64) && bv.get(129));
    assert!(!bv.get(1) && !bv.get(128));
    assert_eq!(bv.count_ones(), 3);
    bv.set(64, false);
    assert!(!bv.get(64));
    assert_eq!(bv.count_ones(), 2);
}

#[test]
fn bit_vector_from_bools_keeps_bits() {
    let mut rng = SmallRng::seed_from_u64(1);
    let b = random_bools(&mut rng, 1000, 0.3);
    let bv = BitVector::from_bools(&b);
    assert_eq!(bv.len(), 1000);
    for (i, x) in b.iter().enumerate() {
        assert_eq!(bv.get(i), *x);
    }
    assert_eq!(bv.count_ones(), naive_rank(&b, 1000));
}

#[test]
fn rank9_matches_counting_for_every_position() {
    let mut rng = SmallRng::seed_from_u64(2);
    for &(n, d) in &[(0usize, 0.5), (1, 1.0), (63, 0.5), (64, 0.5), (513, 0.1), (2000, 0.9)] {
        let b = random_bools(&mut rng, n, d);
        let r = Rank9::new(BitVector::from_bools(&b));
        for i in 0..=n {
            assert_eq!(r.rank(i), naive_rank(&b, i));
        }
        assert_eq!(r.rank(0), 0);
        assert_eq!(r.rank(n), r.count_ones());
    }
}

#[test]
fn rank_of_select_and_select_of_rank() {
    let mut rng = SmallRng::seed_from_u64(3);
    let b = random_bools(&mut rng, 5000, 0.2);
    let s9 = Select9::new(Rank9::new(BitVector::from_bools(&b)));
    let sa = SelectAdapt::new(BitVector::from_bools(&b), 3);
    let ones = s9.count_ones();
    assert_eq!(sa.count_ones(), ones);
    for k in 0..ones {
        let p = s9.select(k).unwrap();
        assert_eq!(Some(p), naive_select(&b, k));
        assert_eq!(s9.rank(p), k);
        assert_eq!(sa.select(k), Some(p));
        assert_eq!(sa.select_unchecked(k), p);
    }
    for p in 0..b.len() {
        if b[p] {
            assert_eq!(s9.select(s9.rank(p)), Some(p));
        }
    }
    assert_eq!(s9.select(ones), None);
    assert_eq!(sa.select(ones), None);
}

#[test]
fn select_on_empty_and_full_vectors() {
    let empty = Select9::new(Rank9::new(BitVector::new(100)));
    assert_eq!(empty.select(0), None);
    let full = SelectAdapt::new(BitVector::from_bools(&vec![true; 200]), 0);
    for k in 0..200 {
        assert_eq!(full.select(k), Some(k));
    }
    assert_eq!(full.select(200), None);
}

#[test]
fn skewed_density_select_agrees() {
    let mut rng = SmallRng::seed_from_u64(0);
    let mut b = random_bools(&mut rng, 50, 0.1);
    b.extend(random_bools(&mut rng, 50, 0.9));
    let sa = SelectAdapt::new(BitVector::from_bools(&b), 3);
    let s9 = Select9::new(Rank9::new(BitVector::from_bools(&b)));
    assert_eq!(sa.len(), 100);
    assert_eq!(sa.count_ones(), s9.count_ones());
    for k in 0..s9.count_ones() {
        assert_eq!(sa.select(k), s9.select(k));
        assert_eq!(sa.select(k), naive_select(&b, k));
    }
}

#[test]
fn remap_values() {
    assert_eq!(remap128(0, 10), 0);
    assert_eq!(remap128(usize::MAX, 10), 9);
    assert_eq!(remap128(1 << 63, 10), 5);
    assert_eq!(remap128(12345, 0), 0);
}

#[test]
fn skewed_target_picks_half() {
    assert_eq!(skewed_select_target(1, 1 << 63, 10, 20), 20);
    assert_eq!(skewed_select_target(2, 1 << 63, 10, 20), 5);
}

#[test]
fn bit_vector_serialize_round_trip() {
    let mut rng = SmallRng::seed_from_u64(4);
    for n in [0usize, 1, 64, 100, 1000] {
        let b = random_bools(&mut rng, n, 0.5);
        let bv = BitVector::from_bools(&b);
        let mut out = vec![7u64];
        bv.serialize(&mut out);
        assert_eq!(out[1], n as u64);
        let (back, next) = BitVector::deserialize(&out, 1).unwrap();
        assert_eq!(next, out.len());
        for i in 0..n {
            assert_eq!(back.get(i), b[i]);
        }
    }
}

#[test]
fn bit_vector_deserialize_rejects_bad_data() {
    assert!(BitVector::deserialize(&[], 0).is_none());
    assert!(BitVector::deserialize(&[65, 0], 0).is_none());
    assert!(BitVector::deserialize(&[3, 0b1000], 0).is_none());
    assert!(BitVector::deserialize(&[3, 0b0111], 0).is_some());
}
