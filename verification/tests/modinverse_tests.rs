use num_bigint::BigInt;
use numtheory::modinverse::Modinverse;

#[test]
fn t_modinv0() {
    // modular multiplicative inverse of a (mod b)
    // computer q_inv = mmi of q (mod p)
    let a = BigInt::from(53i32); // q
    let b = BigInt::from(61i32); // p
    let i = a.modinverse(&b);
    println!("a={}, b={}, i={}", a, b, i);
    assert_eq!(i, BigInt::from(38i32));
}

#[test]
fn t_modinv1() {
    // modular multiplicative inverse of a (mod b)
    // compute d = mmi of e (mod λ(n))
    let a = BigInt::from(17u32); // e
    let b = BigInt::from(780u32); // λ(n)
    let i = a.modinverse(&b);
    println!("a={}, b={}, i={}", a, b, i);
    assert_eq!(i, BigInt::from(413i32));
}

#[test]
fn t_modinv_product_is_one_and_in_range() {
    // For coprime pairs the inverse lands in [0, m) and inverts.
    let pairs: Vec<(u64, u64)> = vec![
        (1, 2),
        (3, 10),
        (53, 61),
        (17, 780),
        (65537, 99991),
        (2, 1000003),
        (999999, 1000003),
    ];
    for &(av, mv) in &pairs {
        let a = BigInt::from(av);
        let m = BigInt::from(mv);
        let s = a.modinverse(&m);
        assert!(s >= BigInt::from(0i32), "a={}, m={}", av, mv);
        assert!(s < m, "a={}, m={}", av, mv);
        assert_eq!((&a * &s) % &m, BigInt::from(1i32), "a={}, m={}", av, mv);
    }
}
