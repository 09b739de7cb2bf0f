use fid::codec::{decode_bit, decode_rank1, decode_select0, decode_select1, encode};
use fid::tables::Tables;
use rand::rngs::StdRng;
use rand::{Rng, SeedableRng};

/// Naive full decoder used as a reference for the round-trip tests.
fn decode(t: &Tables, mut index: u64, k: u64) -> u64 {
    let code_size = t.width_of(k);
    if code_size == 64 {
        return index;
    }
    let mut l: u64 = 0;
    let mut bits: u64 = 0;
    for i in 0..64u64 {
        let base = t.binom(63 - i, k - l);
        if index >= base {
            bits |= 1 << i;
            index -= base;
            l += 1;
            if l == k {
                break;
            }
        }
    }
    bits
}

#[test]
fn test_encode_decode_rng() {
    let t = Tables::new();
    let n = 1000;
    let mut rng: StdRng = SeedableRng::from_seed([0; 32]);
    for _ in 0..n {
        let bits: u64 = rng.gen();
        let k = bits.count_ones() as u64;
        assert_eq!(decode(&t, encode(&t, bits, k).0, k), bits);
    }
}

#[test]
fn test_encode_decode_log() {
    let t = Tables::new();
    for i in 0..u64::BITS {
        let bits: u64 = !0 >> i;
        let k = bits.count_ones() as u64;
        assert_eq!(decode(&t, encode(&t, bits, k).0, k), bits);
    }
}

#[test]
fn test_decode_rank1() {
    let t = Tables::new();
    let n = 100;
    let mut rng: StdRng = SeedableRng::from_seed([0; 32]);
    for _ in 0..n {
        let bits: u64 = rng.gen();
        let k = bits.count_ones() as u64;
        for p in 0..64 {
            let ans = u64::from((bits & ((1 << p) - 1)).count_ones());
            assert_eq!(decode_rank1(&t, encode(&t, bits, k).0, k, p), ans);
        }
    }
}

#[test]
fn test_decode_select1() {
    let t = Tables::new();
    assert_eq!(decode_select1(&t, encode(&t, u64::MAX, 64).0, 64, 64), 64);

    let n = 100;
    let mut rng: StdRng = SeedableRng::from_seed([0; 32]);
    for _ in 0..n {
        let bits: u64 = rng.gen();
        let k = bits.count_ones() as u64;
        let mut ans = 0;
        for r in 0..k {
            while ans < 64 {
                if bits & (1 << ans) > 0 {
                    break;
                }
                ans += 1;
            }
            assert_eq!(decode_select1(&t, encode(&t, bits, k).0, k, r), ans);
            ans += 1;
        }
    }
}

#[test]
fn test_decode_select0() {
    let t = Tables::new();
    assert_eq!(decode_select0(&t, encode(&t, !0u64 >> 32, 32).0, 32, 64), 64);

    let n = 100;
    let mut rng: StdRng = SeedableRng::from_seed([0; 32]);
    for _ in 0..n {
        let bits: u64 = rng.gen();
        let k = bits.count_ones() as u64;
        let mut ans = 0;
        for r in 0..(64 - k) {
            while ans < 64 {
                if bits & (1 << ans) == 0 {
                    break;
                }
                ans += 1;
            }
            assert_eq!(decode_select0(&t, encode(&t, bits, k).0, k, r), ans);
            ans += 1;
        }
    }
}

#[test]
fn test_decode_bit() {
    let t = Tables::new();
    let n = 100;
    let mut rng: StdRng = SeedableRng::from_seed([0; 32]);
    for _ in 0..n {
        let bits: u64 = rng.gen();
        let k = bits.count_ones() as u64;
        for p in 0..64 {
            let ans = (bits >> p) & 1 == 1;
            assert_eq!(
                decode_bit(&t, encode(&t, bits, k).0, k, p),
                ans,
                "the {}-th bit of {:064b} is {}",
                p,
                bits,
                ans as u8,
            );
        }
    }
}
