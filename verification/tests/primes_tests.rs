use num_bigint::{BigInt, BigUint};
use num_traits::Num;
use numtheory::primes::IsProbablyPrimeMrt;

#[test]
fn do_it() {
    let rounds: u32 = 16;

    assert_eq!(BigUint::from(0u32).is_probably_prime_mrt(rounds), false);
    assert_eq!(BigUint::from(1u32).is_probably_prime_mrt(rounds), false);
    assert_eq!(BigUint::from(2u32).is_probably_prime_mrt(rounds), true);
    assert_eq!(BigUint::from(3u32).is_probably_prime_mrt(rounds), true);
    assert_eq!(BigUint::from(4u32).is_probably_prime_mrt(rounds), false);
    assert_eq!(BigUint::from(5u32).is_probably_prime_mrt(rounds), true);
    assert_eq!(BigUint::from(6u32).is_probably_prime_mrt(rounds), false);
    assert_eq!(BigUint::from(7u32).is_probably_prime_mrt(rounds), true);
    assert_eq!(BigUint::from(8u32).is_probably_prime_mrt(rounds), false);
    assert_eq!(BigUint::from(9u32).is_probably_prime_mrt(rounds), false);
    assert_eq!(BigUint::from(10u32).is_probably_prime_mrt(rounds), false);
    assert_eq!(BigUint::from(11u32).is_probably_prime_mrt(rounds), true);
    assert_eq!(BigUint::from(12u32).is_probably_prime_mrt(rounds), false);
    assert_eq!(BigUint::from(13u32).is_probably_prime_mrt(rounds), true);
    assert_eq!(BigUint::from(14u32).is_probably_prime_mrt(rounds), false);
    assert_eq!(BigUint::from(15u32).is_probably_prime_mrt(rounds), false);

    let not_a_prime = BigUint::from_str_radix(
        "918387933381198629487862179527787779653135890315238062816931",
        10,
    )
    .unwrap();
    assert_eq!(not_a_prime.is_probably_prime_mrt(rounds), false);

    let a_prime = BigUint::from_str_radix(
        "19655025531041902030478224584153231378978641764268088923479",
        10,
    )
    .unwrap();
    assert_eq!(a_prime.is_probably_prime_mrt(rounds), true);
}

fn is_prime_by_trial_division(n: u32) -> bool {
    if n < 2 {
        return false;
    }
    let mut d: u32 = 2;
    while d * d <= n {
        if n % d == 0 {
            return false;
        }
        d += 1;
    }
    true
}

#[test]
fn matches_trial_division_oracle() {
    for n in 0u32..=10000u32 {
        let expected = is_prime_by_trial_division(n);
        assert_eq!(
            BigUint::from(n).is_probably_prime_mrt(16),
            expected,
            "n={}",
            n
        );
    }
}

#[test]
fn signed_variant_rejects_negatives_and_matches_unsigned() {
    assert_eq!(BigInt::from(-7i32).is_probably_prime_mrt(16), false);
    assert_eq!(BigInt::from(-1i32).is_probably_prime_mrt(16), false);
    assert_eq!(BigInt::from(0i32).is_probably_prime_mrt(16), false);
    assert_eq!(BigInt::from(2i32).is_probably_prime_mrt(16), true);
    assert_eq!(BigInt::from(1117i32).is_probably_prime_mrt(16), true);
    assert_eq!(BigInt::from(1111i32).is_probably_prime_mrt(16), false);
}
