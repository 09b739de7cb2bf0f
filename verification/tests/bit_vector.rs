use fid::bit_vector::BitVector;
use fid::fid::FID;

fn build(pattern: &[bool]) -> BitVector {
    let mut bv = BitVector::new();
    for &b in pattern {
        bv.push(b);
    }
    bv
}

#[test]
fn scenario_eight_bits() {
    // 01101101
    let bv = build(&[false, true, true, false, true, true, false, true]);
    assert_eq!(bv.rank0(5), 2);
    assert_eq!(bv.rank1(5), 3);
    assert_eq!(bv.select0(2), 6);
    assert_eq!(bv.select1(2), 4);
}

#[test]
fn empty_vector() {
    let bv = BitVector::new();
    assert_eq!(bv.len(), 0);
    assert_eq!(bv.rank1(0), 0);
    assert_eq!(bv.select1(0), 0);
    assert_eq!(bv.select0(0), 0);
}

#[test]
fn cross_check_small() {
    let mut pattern = Vec::new();
    let mut x: u64 = 0x9e3779b97f4a7c15;
    for _ in 0..2500u32 {
        x ^= x << 13;
        x ^= x >> 7;
        x ^= x << 17;
        pattern.push(x & 1 == 1);
    }
    let bv = build(&pattern);
    let mut rank: u64 = 0;
    for (i, &b) in pattern.iter().enumerate() {
        assert_eq!(bv.get(i as u64), b);
        assert_eq!(bv.rank1(i as u64), rank);
        rank += b as u64;
    }
    assert_eq!(bv.rank1(bv.len()), rank);
    let mut r1 = 0u64;
    let mut r0 = 0u64;
    for (i, &b) in pattern.iter().enumerate() {
        if b {
            assert_eq!(bv.select1(r1), i as u64);
            r1 += 1;
        } else {
            assert_eq!(bv.select0(r0), i as u64);
            r0 += 1;
        }
    }
    assert_eq!(bv.select1(r1), bv.len());
    assert_eq!(bv.select0(r0), bv.len());
}

#[test]
fn shrink_keeps_queries() {
    let pattern: Vec<bool> = (0..300u32).map(|i| i % 3 == 0).collect();
    let mut bv = build(&pattern);
    let before: Vec<u64> = (0..=300u64).map(|i| bv.rank1(i)).collect();
    bv.shrink_to_fit();
    let after: Vec<u64> = (0..=300u64).map(|i| bv.rank1(i)).collect();
    assert_eq!(before, after);
    for (i, &b) in pattern.iter().enumerate() {
        assert_eq!(bv.get(i as u64), b);
    }
}
