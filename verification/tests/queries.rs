use fid::bit_array::BitArray;
use fid::bit_vector::{BitVector, LBLOCK_WIDTH, SBLOCK_WIDTH, SELECT_UNIT_NUM};
use fid::fid::FID;
use rand::rngs::StdRng;
use rand::{Rng, SeedableRng};

const TEST_PROB: &[f64] = &[0.01, 0.5, 0.99];
const TEST_SIZE: &[u64] = &[
    1,
    SBLOCK_WIDTH / 2,
    SBLOCK_WIDTH,
    LBLOCK_WIDTH - SBLOCK_WIDTH,
    LBLOCK_WIDTH - SBLOCK_WIDTH / 2,
    LBLOCK_WIDTH,
    SELECT_UNIT_NUM - LBLOCK_WIDTH,
    SELECT_UNIT_NUM,
    SELECT_UNIT_NUM + LBLOCK_WIDTH,
    SELECT_UNIT_NUM + LBLOCK_WIDTH + SBLOCK_WIDTH / 2,
    SELECT_UNIT_NUM + LBLOCK_WIDTH + SBLOCK_WIDTH,
    SELECT_UNIT_NUM * 2,
    SELECT_UNIT_NUM * 10 + LBLOCK_WIDTH + SBLOCK_WIDTH + SBLOCK_WIDTH / 2,
];

#[test]
fn test_construct() {
    for &p in TEST_PROB {
        for &n in TEST_SIZE {
            let mut rng: StdRng = SeedableRng::from_seed([0; 32]);
            let mut bv = BitVector::with_capacity(n);
            for _ in 0..n {
                let b = rng.gen_bool(p);
                bv.push(b);
            }
        }
    }
}

#[test]
fn test_rank1() {
    for &p in TEST_PROB {
        for &n in TEST_SIZE {
            let mut rng: StdRng = SeedableRng::from_seed([0; 32]);
            let mut bv = BitVector::new();
            let mut ba = BitArray::new();
            for i in 0..n {
                let b = rng.gen_bool(p);
                ba.set_bit(i, b);
                bv.push(b);
            }

            let mut rank = 0;
            for i in 0..n {
                assert_eq!(rank, bv.rank1(i));
                rank += ba.get_bit(i) as u64;
            }
        }
    }
}

#[test]
fn test_select1() {
    for &p in TEST_PROB {
        for &n in TEST_SIZE {
            let mut rng: StdRng = SeedableRng::from_seed([0; 32]);
            let mut bv = BitVector::new();
            let mut select_ans = vec![];
            for i in 0..n {
                let b = rng.gen_bool(p);
                bv.push(b);
                if b {
                    select_ans.push(i);
                }
            }

            for (i, &r) in select_ans.iter().enumerate() {
                assert_eq!(bv.select1(i as u64), r);
            }
        }
    }
}

#[test]
fn test_select0() {
    for &p in TEST_PROB {
        for &n in TEST_SIZE {
            let mut rng: StdRng = SeedableRng::from_seed([0; 32]);
            let mut bv = BitVector::new();
            let mut select_ans = vec![];
            for i in 0..n {
                let b = rng.gen_bool(p);
                bv.push(b);
                if !b {
                    select_ans.push(i);
                }
            }

            for (i, &r) in select_ans.iter().enumerate() {
                assert_eq!(bv.select0(i as u64), r);
            }
        }
    }
}

#[test]
fn test_get() {
    for &p in TEST_PROB {
        for &n in TEST_SIZE {
            let mut rng: StdRng = SeedableRng::from_seed([0; 32]);
            let mut bv = BitVector::new();
            let mut ba = BitArray::new();
            for i in 0..n {
                let b = rng.gen_bool(p);
                ba.set_bit(i, b);
                bv.push(b);
            }

            for i in 0..n {
                assert_eq!(bv.get(i), ba.get_bit(i));
            }
        }
    }
}

#[test]
fn from_bit_fills_uniformly() {
    let bv = BitVector::from_bit(true, 130);
    assert_eq!(bv.len(), 130);
    assert_eq!(bv.rank1(130), 130);
    assert_eq!(bv.select1(129), 129);
    let bv = BitVector::from_bit(false, 70);
    assert_eq!(bv.rank1(70), 0);
    assert_eq!(bv.select0(69), 69);
}
