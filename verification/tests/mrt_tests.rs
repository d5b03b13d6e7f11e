use num_bigint::BigUint;
use numtheory::mrt::{factorize, mrt};

#[test]
fn mrt0() {
    for _i in 0..1000 {
        assert_eq!(mrt(&BigUint::from(1111u32), 16), false);
    }
}

#[test]
fn mrt1() {
    for _i in 0..1000 {
        assert_eq!(mrt(&BigUint::from(1117u32), 16), true);
    }
}

#[test]
fn tfactorize() {
    let n = BigUint::from(3041u32);
    let (r, d) = factorize(&n);
    println!("{}, {}", r, d);
}

#[test]
fn tfactorize_exact_decomposition() {
    // 3040 == 2^5 * 95, with 95 odd.
    let n = BigUint::from(3041u32);
    let (r, d) = factorize(&n);
    assert_eq!(r, BigUint::from(5u32));
    assert_eq!(d, BigUint::from(95u32));

    // 12 == 2^2 * 3, with 3 odd.
    let n = BigUint::from(13u32);
    let (r, d) = factorize(&n);
    assert_eq!(r, BigUint::from(2u32));
    assert_eq!(d, BigUint::from(3u32));
}

#[test]
fn mrt_small_primes_and_composites() {
    let primes: Vec<u32> = vec![5, 7, 11, 13, 101, 997, 7919];
    for &p in &primes {
        assert_eq!(mrt(&BigUint::from(p), 16), true, "p={}", p);
    }
    let composites: Vec<u32> = vec![9, 15, 21, 25, 1111, 7917];
    for &c in &composites {
        assert_eq!(mrt(&BigUint::from(c), 16), false, "c={}", c);
    }
}
