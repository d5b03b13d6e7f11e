use num_bigint::BigInt;
use numtheory::egcd::Egcd;

#[test]
fn tegcd() {
    // gcd(a, b) = a*x + b*y
    let a = BigInt::from(1432i32);
    let b = BigInt::from(123211i32);
    let (g, x, y) = a.egcd(&b);
    println!("a={}, b={}, g={}, x={}, y={}", a, b, g, x, y);
    assert_eq!(x, BigInt::from(-22973i32));
    assert_eq!(y, BigInt::from(267i32));
}

#[test]
fn tegcd_identity_holds_on_grid() {
    // gcd(a, b) == a*x + b*y over mixed signs, and the gcd divides both.
    let values: Vec<i64> = vec![-270, -192, -37, -5, -1, 0, 1, 2, 35, 64, 123211, 1432];
    for &av in &values {
        for &bv in &values {
            let a = BigInt::from(av);
            let b = BigInt::from(bv);
            let (g, x, y) = a.egcd(&b);
            assert_eq!(g, &a * &x + &b * &y, "a={}, b={}", av, bv);
            if g != BigInt::from(0i32) {
                assert_eq!(&a % &g, BigInt::from(0i32), "a={}, b={}", av, bv);
                assert_eq!(&b % &g, BigInt::from(0i32), "a={}, b={}", av, bv);
            }
        }
    }
}

#[test]
fn tegcd_zero_left_operand() {
    let a = BigInt::from(0i32);
    let b = BigInt::from(42i32);
    let (g, x, y) = a.egcd(&b);
    assert_eq!(g, BigInt::from(42i32));
    assert_eq!(x, BigInt::from(0i32));
    assert_eq!(y, BigInt::from(1i32));
}

#[test]
fn tegcd_zero_right_operand() {
    // The gcd keeps the surviving operand's sign.
    let a = BigInt::from(5i32);
    let b = BigInt::from(0i32);
    let (g, x, y) = a.egcd(&b);
    assert_eq!(g, BigInt::from(5i32));
    assert_eq!(x, BigInt::from(1i32));
    assert_eq!(y, BigInt::from(0i32));

    let a = BigInt::from(-5i32);
    let (g, x, y) = a.egcd(&b);
    assert_eq!(g, BigInt::from(-5i32));
    assert_eq!(x, BigInt::from(1i32));
    assert_eq!(y, BigInt::from(0i32));
}

#[test]
fn tegcd_coprime_gives_one() {
    let a = BigInt::from(53i32);
    let b = BigInt::from(61i32);
    let (g, _x, _y) = a.egcd(&b);
    assert_eq!(g, BigInt::from(1i32));
}
